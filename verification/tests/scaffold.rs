use intcomputer::scaffold::{key_of_tile, read_camera, trace_path, AbsDirection, Robot};
use std::collections::HashSet;

fn scaffold(tiles: &[(usize, usize)]) -> HashSet<u128> {
    tiles.iter().map(|&(x, y)| key_of_tile(x, y)).collect()
}

#[test]
fn test_p1() {}

#[test]
fn tiles_around_the_robot() {
    let set = scaffold(&[]);
    let mut robot = Robot {
        current_position: (5, 7),
        current_direction: AbsDirection::UP,
        scaffolding: &set,
    };
    assert_eq!(robot.tile_ahead(), (5, 6));
    assert_eq!(robot.tile_left(), (4, 7));
    assert_eq!(robot.tile_right(), (6, 7));
    robot.current_direction = AbsDirection::DOWN;
    assert_eq!(robot.tile_ahead(), (5, 8));
    assert_eq!(robot.tile_left(), (6, 7));
    assert_eq!(robot.tile_right(), (4, 7));
    robot.current_direction = AbsDirection::LEFT;
    assert_eq!(robot.tile_ahead(), (4, 7));
    assert_eq!(robot.tile_left(), (5, 8));
    assert_eq!(robot.tile_right(), (5, 6));
    robot.current_direction = AbsDirection::RIGHT;
    assert_eq!(robot.tile_ahead(), (6, 7));
    assert_eq!(robot.tile_left(), (5, 6));
    assert_eq!(robot.tile_right(), (5, 8));
}

#[test]
fn turns_and_steps() {
    let set = scaffold(&[]);
    let mut robot = Robot {
        current_position: (0, 0),
        current_direction: AbsDirection::UP,
        scaffolding: &set,
    };
    robot.turn_left();
    assert_eq!(robot.current_direction, AbsDirection::LEFT);
    robot.turn_left();
    assert_eq!(robot.current_direction, AbsDirection::DOWN);
    robot.step();
    assert_eq!(robot.current_position, (0, 1));
    robot.turn_left();
    assert_eq!(robot.current_direction, AbsDirection::RIGHT);
    robot.step();
    robot.step();
    assert_eq!(robot.current_position, (2, 1));
    robot.turn_left();
    assert_eq!(robot.current_direction, AbsDirection::UP);
    robot.turn_right();
    assert_eq!(robot.current_direction, AbsDirection::RIGHT);
    robot.turn_right();
    assert_eq!(robot.current_direction, AbsDirection::DOWN);
    robot.turn_right();
    assert_eq!(robot.current_direction, AbsDirection::LEFT);
    robot.turn_right();
    assert_eq!(robot.current_direction, AbsDirection::UP);
    robot.step();
    assert_eq!(robot.current_position, (2, 0));
    robot.step();
    assert_eq!(robot.current_position, (2, -1));
}

#[test]
fn only_scaffold_tiles_are_valid_moves() {
    let set = scaffold(&[(0, 0), (1, 0), (1, 1), (0, 3)]);
    let robot = Robot {
        current_position: (0, 0),
        current_direction: AbsDirection::RIGHT,
        scaffolding: &set,
    };
    assert!(robot.is_valid_move((0, 0)));
    assert!(robot.is_valid_move((1, 0)));
    assert!(robot.is_valid_move((1, 1)));
    assert!(robot.is_valid_move((0, 3)));
    assert!(!robot.is_valid_move((3, 0)));
    assert!(!robot.is_valid_move((0, 1)));
    assert!(!robot.is_valid_move((-1, 0)));
    assert!(!robot.is_valid_move((0, -1)));
    assert!(!robot.is_valid_move((-1, -1)));
    assert!(robot.is_valid_move(robot.tile_ahead()));
}

#[test]
fn tile_keys_tell_tiles_apart() {
    let tiles = [(0, 0), (0, 1), (1, 0), (usize::MAX, 0), (0, usize::MAX), (usize::MAX, usize::MAX)];
    for a in tiles {
        for b in tiles {
            assert_eq!(key_of_tile(a.0, a.1) == key_of_tile(b.0, b.1), a == b);
        }
    }
    assert_eq!(key_of_tile(1, 2), 18446744073709551618);
}

fn camera_output(picture: &str) -> Vec<i64> {
    picture.bytes().map(|b| b as i64).collect()
}

const CROSSINGS: &str = "..#..........
..#..........
#######...###
#.#...#...#.#
#############
..#...#...#..
..#####...^..
";

const WAY: &str = "#######...#####
#.....#...#...#
#.....#...#...#
......#...#...#
......#...###.#
......#.....#.#
^########...#.#
......#.#...#.#
......#########
........#...#..
....#########..
....#...#......
....#...#......
....#...#......
....#####......
";

#[test]
fn camera_output_is_read_row_by_row() {
    let camera = read_camera(&camera_output("#.\n.^#\n"));
    assert_eq!(camera.tiles, vec![(0, 0), (2, 1)]);
    assert_eq!(camera.num_rows, 3);
    assert_eq!(camera.num_cols, 2);
    assert_eq!(camera.start, (1, 1));
    assert_eq!(camera.scaffolding, scaffold(&[(0, 0), (2, 1)]));

    let camera = read_camera(&vec![]);
    assert_eq!(camera.tiles, vec![]);
    assert_eq!((camera.num_rows, camera.num_cols), (1, 0));
    assert_eq!(camera.start, (0, 0));

    let camera = read_camera(&camera_output("^#^"));
    assert_eq!(camera.start, (2, 0));
    assert_eq!((camera.num_rows, camera.num_cols), (1, 3));
    assert_eq!(camera.tiles, vec![(1, 0)]);
}

#[test]
fn crossings_add_up_to_the_alignment() {
    let camera = read_camera(&camera_output(CROSSINGS));
    assert_eq!(camera.num_rows, 8);
    assert_eq!(camera.num_cols, 13);
    assert_eq!(camera.start, (10, 6));
    assert_eq!(camera.alignment(), 76);
    assert_eq!(read_camera(&vec![]).alignment(), 0);
    assert_eq!(read_camera(&camera_output("###\n###\n###\n")).alignment(), 1);
}

#[test]
fn way_along_the_scaffold_is_traced() {
    let camera = read_camera(&camera_output(WAY));
    assert_eq!(camera.start, (0, 6));
    let mut robot = Robot {
        current_position: (camera.start.0 as isize, camera.start.1 as isize),
        current_direction: AbsDirection::UP,
        scaffolding: &camera.scaffolding,
    };
    let path = trace_path(&mut robot);
    assert_eq!(path.join(","), "R,8,R,8,R,4,R,4,R,8,L,6,L,2,R,4,R,4,R,8,R,8,R,8,L,6,L,2");
    assert_eq!(robot.current_position, (0, 2));
    assert_eq!(robot.current_direction, AbsDirection::DOWN);
}

#[test]
fn way_without_scaffold_is_empty() {
    let set = scaffold(&[]);
    let mut robot = Robot {
        current_position: (3, 3),
        current_direction: AbsDirection::UP,
        scaffolding: &set,
    };
    assert_eq!(trace_path(&mut robot), Vec::<String>::new());
    let set = scaffold(&[(3, 2), (3, 1), (3, 0)]);
    let mut robot = Robot {
        current_position: (3, 3),
        current_direction: AbsDirection::UP,
        scaffolding: &set,
    };
    assert_eq!(trace_path(&mut robot), vec!["3"]);
    assert_eq!(robot.current_position, (3, 0));
}
