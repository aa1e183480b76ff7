use intcomputer::wires::{point_key, Grid};

#[test]
fn test_up() {
    let grid = Grid::new("U2");
    assert!(grid.points.contains(&point_key(0, 1)));
    assert!(grid.points.contains(&point_key(0, 2)));
}

#[test]
fn test_down() {
    let grid = Grid::new("D2");
    assert!(grid.points.contains(&point_key(0, -1)));
    assert!(grid.points.contains(&point_key(0, -2)));
}

#[test]
fn test_left() {
    let grid = Grid::new("L2");
    assert!(grid.points.contains(&point_key(-1, 0)));
    assert!(grid.points.contains(&point_key(-2, 0)));
}

#[test]
fn test_right() {
    let grid = Grid::new("R2");
    assert!(grid.points.contains(&point_key(1, 0)));
    assert!(grid.points.contains(&point_key(2, 0)));
}

#[test]
fn test_right_up() {
    let grid = Grid::new("R2,U2");
    println!("{:?}", grid.points);
    assert!(grid.points.contains(&point_key(1, 0)));
    assert!(grid.points.contains(&point_key(2, 0)));
    assert!(grid.points.contains(&point_key(2, 1)));
    assert!(grid.points.contains(&point_key(2, 2)));
}

#[test]
fn test_overlap() {
    let grid1 = Grid::new("R2,U2");
    let grid2 = Grid::new("U2,R2");
    assert_eq!(grid1.get_overlap(&grid2), vec![(2, 2)]);
}

#[test]
fn test_ex1() {
    let grid1 = Grid::new("R75,D30,R83,U83,L12,D49,R71,U7,L72");
    let grid2 = Grid::new("U62,R66,U55,R34,D71,R55,D58,R83");
    let overlap = grid1.get_overlap(&grid2);
    assert_eq!(Grid::smallest_distance(&overlap), 159);
    assert_eq!(Grid::smallest_delay(&overlap, &grid1, &grid2), 610);
}

#[test]
fn test_ex2() {
    let grid1 = Grid::new("R98,U47,R26,D63,R33,U87,L62,D20,R33,U53,R51");
    let grid2 = Grid::new("U98,R91,D20,R16,D67,R40,U7,R15,U6,R7");
    let overlap = grid1.get_overlap(&grid2);
    assert_eq!(Grid::smallest_distance(&overlap), 135);
    assert_eq!(Grid::smallest_delay(&overlap, &grid1, &grid2), 410);
}

#[test]
fn trail_lists_points_in_order_with_steps() {
    let grid = Grid::new("R2,U1,L3,D2");
    assert_eq!(
        grid.pt_queue,
        vec![
            (1, 0, 1),
            (2, 0, 2),
            (2, 1, 3),
            (1, 1, 4),
            (0, 1, 5),
            (-1, 1, 6),
            (-1, 0, 7),
            (-1, -1, 8),
        ]
    );
    assert_eq!(grid.head, (-1, -1));
    assert_eq!(grid.steps, 8);
    assert_eq!(grid.points.len(), 8);
    assert!(!grid.points.contains(&point_key(0, 0)));
}

#[test]
fn unknown_letter_and_zero_steps_add_nothing() {
    let grid = Grid::new("X5,R0,U+2");
    assert_eq!(grid.pt_queue, vec![(0, 1, 1), (0, 2, 2)]);
    assert_eq!(grid.head, (0, 2));
    assert_eq!(grid.steps, 2);
}

#[test]
fn add_points_extends_the_trail() {
    let mut grid = Grid::new("R1");
    Grid::add_points(&mut grid, 'D', 2);
    assert_eq!(grid.pt_queue, vec![(1, 0, 1), (1, -1, 2), (1, -2, 3)]);
    assert_eq!(grid.head, (1, -2));
    Grid::add_points(&mut grid, 'Q', 7);
    assert_eq!(grid.head, (1, -2));
    assert_eq!(grid.steps, 3);
    Grid::add_points(&mut grid, 'L', -2);
    assert_eq!(grid.head, (3, -2));
    assert_eq!(grid.steps, 3);
    assert_eq!(grid.pt_queue.len(), 3);
}

#[test]
fn point_keys_tell_points_apart() {
    let points = [(0, 0), (0, 1), (1, 0), (-1, 0), (0, -1), (i32::MAX, i32::MIN), (i32::MIN, i32::MAX)];
    for a in points {
        for b in points {
            assert_eq!(point_key(a.0, a.1) == point_key(b.0, b.1), a == b);
        }
    }
    assert_eq!(point_key(0, 0), 2147483648);
    assert_eq!(point_key(1, 0), 4294967296 + 2147483648);
    assert_eq!(point_key(i32::MIN, i32::MIN), i64::MIN);
    assert_eq!(point_key(i32::MAX, i32::MAX), i64::MAX);
}

#[test]
fn overlap_lists_each_crossing_once() {
    let grid1 = Grid::new("R3,U1,L3,D1,R3");
    let grid2 = Grid::new("U1,R3,D1");
    let mut overlap = grid1.get_overlap(&grid2);
    overlap.sort();
    assert_eq!(overlap, vec![(0, 1), (1, 1), (2, 1), (3, 0), (3, 1)]);
    assert_eq!(Grid::smallest_distance(&overlap), 1);
    // (0, 1): the first wire gets there after 7 steps, the second after 1.
    assert_eq!(Grid::smallest_delay(&vec![(0, 1)], &grid1, &grid2), 8);
    // (3, 0): the first wire passes it after 3 steps and again after 11.
    assert_eq!(Grid::smallest_delay(&vec![(3, 0)], &grid1, &grid2), 3 + 5);
}

#[test]
fn smallest_distance_takes_absolute_values() {
    assert_eq!(Grid::smallest_distance(&vec![(-3, 4), (5, -1), (2, 2)]), 4);
    assert_eq!(Grid::smallest_distance(&vec![(-7, -8)]), 15);
}
