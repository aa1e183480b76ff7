use intcomputer::droid::{Direction, Pos, Robot, Tile};
use intcomputer::ProgramState;

#[test]
fn neighbors_are_listed_north_south_east_west() {
    let p = Pos(3, -4);
    assert_eq!(p.neighbor(Direction::North), Pos(4, -4));
    assert_eq!(p.neighbor(Direction::South), Pos(2, -4));
    assert_eq!(p.neighbor(Direction::West), Pos(3, -5));
    assert_eq!(p.neighbor(Direction::East), Pos(3, -3));
    assert_eq!(p.all_neighbors(), vec![Pos(4, -4), Pos(2, -4), Pos(3, -3), Pos(3, -5)]);
}

#[test]
fn unknown_neighbors_leave_out_what_is_known() {
    let p = Pos(0, 0);
    let walls = vec![Pos(1, 0), Pos(9, 9)];
    let empty = vec![Pos(0, -1)];
    assert_eq!(p.unknown_neighbors(&walls, &empty), vec![Pos(-1, 0), Pos(0, 1)]);
    assert_eq!(p.unknown_neighbors(&vec![], &vec![]), p.all_neighbors());
    assert_eq!(p.unknown_neighbors(&p.all_neighbors(), &vec![]), vec![]);
}

#[test]
fn distance_goes_along_the_grid() {
    assert_eq!(Pos(1, 2).dist(&Pos(4, -2)), 7);
    assert_eq!(Pos(-5, -5).dist(&Pos(-5, -5)), 0);
    assert_eq!(Pos(0, 0).dist(&Pos(i32::MAX, 0)), 2147483647);
}

#[test]
fn direction_is_given_for_neighbors_only() {
    let p = Pos(0, 0);
    assert_eq!(p.direction(&Pos(1, 0)), Ok(Direction::West));
    assert_eq!(p.direction(&Pos(-1, 0)), Ok(Direction::East));
    assert_eq!(p.direction(&Pos(0, 1)), Ok(Direction::North));
    assert_eq!(p.direction(&Pos(0, -1)), Ok(Direction::South));
    assert_eq!(p.direction(&Pos(0, 0)), Err(()));
    assert_eq!(p.direction(&Pos(1, 1)), Err(()));
    assert_eq!(p.direction(&Pos(2, 0)), Err(()));
}

#[test]
fn new_droid_knows_the_origin_only() {
    let robot = Robot::new(vec![99]);
    assert_eq!(robot.position, Pos(0, 0));
    assert_eq!(robot.empty, vec![Pos(0, 0)]);
    assert_eq!(robot.unknown, vec![Pos(-1, 0), Pos(1, 0), Pos(0, 1), Pos(0, -1)]);
    assert_eq!(robot.walls, vec![]);
    assert_eq!(robot.computer.program, vec![99]);
    assert_eq!(robot.computer.state, ProgramState::Running);
}

#[test]
fn steps_record_what_the_program_reports() {
    // Reports an empty tile, then a wall, then oxygen, and puts out the
    // commands it was given at the end.
    let program = vec![
        3, 30, 104, 1, 3, 31, 104, 0, 3, 32, 104, 2, 3, 33, 4, 30, 4, 31, 4, 32, 99,
    ];
    let mut robot = Robot::new(program);

    assert_eq!(robot.step(Direction::North), Tile::Empty);
    assert_eq!(robot.position, Pos(1, 0));
    assert_eq!(robot.empty, vec![Pos(0, 0), Pos(1, 0)]);
    assert_eq!(
        robot.unknown,
        vec![Pos(-1, 0), Pos(1, 0), Pos(0, 1), Pos(0, -1), Pos(2, 0), Pos(1, 1), Pos(1, -1)]
    );
    assert_eq!(robot.computer.state, ProgramState::WaitingForInput);

    assert_eq!(robot.step(Direction::West), Tile::Wall);
    assert_eq!(robot.position, Pos(1, 0));
    assert_eq!(robot.walls, vec![Pos(1, -1)]);
    assert_eq!(robot.empty.len(), 2);
    assert_eq!(robot.unknown.len(), 7);

    assert_eq!(robot.step(Direction::East), Tile::Oxygen);
    assert_eq!(robot.position, Pos(1, 1));
    assert_eq!(robot.walls, vec![Pos(1, -1)]);
    assert_eq!(robot.empty.len(), 2);
    assert_eq!(robot.unknown.len(), 7);
    assert!(robot.computer.output.is_empty());

    robot.computer.push_input(0);
    robot.computer.run();
    let commands: Vec<i64> = robot.computer.output.iter().copied().collect();
    assert_eq!(commands, vec![1, 3, 4]);
    assert_eq!(robot.computer.state, ProgramState::Finished);
}

#[test]
fn south_is_command_two() {
    let mut robot = Robot::new(vec![3, 10, 104, 0, 4, 10, 99]);
    assert_eq!(robot.step(Direction::South), Tile::Wall);
    assert_eq!(robot.walls, vec![Pos(-1, 0)]);
    assert_eq!(robot.computer.pop_output(), 2);
}
