use intcomputer::arcade::{Arcade, Tile};
use intcomputer::ProgramState;

#[test]
fn tiles_and_their_codes() {
    assert_eq!(Tile::from_code(0), Some(Tile::Empty));
    assert_eq!(Tile::from_code(1), Some(Tile::Wall));
    assert_eq!(Tile::from_code(2), Some(Tile::Block));
    assert_eq!(Tile::from_code(3), Some(Tile::Paddle));
    assert_eq!(Tile::from_code(4), Some(Tile::Ball));
    assert_eq!(Tile::from_code(5), None);
    assert_eq!(Tile::from_code(-1), None);
    for tile in [Tile::Empty, Tile::Wall, Tile::Block, Tile::Paddle, Tile::Ball] {
        assert_eq!(Tile::from_code(tile.code() as i64), Some(tile));
    }
    assert_eq!(Tile::Ball.code(), 4);
}

#[test]
fn new_cabinet_is_blank() {
    let arcade = Arcade::new(vec![99]);
    assert_eq!(arcade.score, 0);
    assert_eq!(arcade.screen.len(), 880);
    assert!(arcade.screen.iter().all(|&t| t == Tile::Empty));
    assert_eq!(arcade.count_tiles(Tile::Empty), 880);
    assert_eq!(arcade.count_tiles(Tile::Block), 0);
    assert_eq!(arcade.position_of(Tile::Ball), None);
    assert_eq!(arcade.position_of(Tile::Empty), Some(0));
}

#[test]
fn output_draws_tiles_and_sets_the_score() {
    let mut arcade = Arcade::new(vec![
        104, 1, 104, 2, 104, 3, 104, 6, 104, 5, 104, 4, 104, -1, 104, 0, 104, 12345, 104, 43, 104,
        19, 104, 2, 104, 45, 104, 0, 104, 2, 3, 100, 99,
    ]);
    arcade.computer.run();
    arcade.consume_output();
    assert!(arcade.computer.output.is_empty());
    assert_eq!(arcade.screen[1 + 2 * 44], Tile::Paddle);
    assert_eq!(arcade.screen[6 + 5 * 44], Tile::Ball);
    assert_eq!(arcade.screen[879], Tile::Block);
    assert_eq!(arcade.screen[45], Tile::Block);
    assert_eq!(arcade.score, 12345);
    assert_eq!(arcade.count_tiles(Tile::Block), 2);
    assert_eq!(arcade.count_tiles(Tile::Empty), 876);
    assert_eq!(arcade.position_of(Tile::Paddle), Some(89));
    assert_eq!(arcade.position_of(Tile::Ball), Some(226));
    assert_eq!(arcade.position_of(Tile::Wall), None);
}

#[test]
fn joystick_follows_the_ball() {
    // Draws the paddle in column 5, then the ball in column 7, 5 and 2 in
    // turn, and puts out what the joystick said each time.
    let mut arcade = Arcade::new(vec![
        104, 5, 104, 10, 104, 3, 104, 7, 104, 4, 104, 4, 3, 100, 104, 7, 104, 4, 104, 0, 104, 5,
        104, 4, 104, 4, 3, 101, 104, 5, 104, 4, 104, 0, 104, 2, 104, 4, 104, 4, 3, 102, 99,
    ]);
    arcade.run();
    assert_eq!(arcade.computer.state, ProgramState::WaitingForInput);
    arcade.steer();
    arcade.run();
    arcade.steer();
    arcade.run();
    arcade.steer();
    arcade.run();
    assert_eq!(arcade.computer.state, ProgramState::Finished);
    assert_eq!(arcade.computer.program[100], 1);
    assert_eq!(arcade.computer.program[101], 0);
    assert_eq!(arcade.computer.program[102], -1);
}

#[test]
fn joystick_positions() {
    let mut arcade = Arcade::new(vec![3, 20, 3, 21, 3, 22, 99]);
    arcade.left();
    arcade.neutral();
    arcade.right();
    arcade.run();
    assert_eq!(arcade.computer.program[20], -1);
    assert_eq!(arcade.computer.program[21], 0);
    assert_eq!(arcade.computer.program[22], 1);
}

#[test]
fn output_left_at_the_halt_stays() {
    let mut arcade = Arcade::new(vec![104, 1, 104, 1, 104, 1, 99]);
    arcade.run();
    assert_eq!(arcade.computer.state, ProgramState::Finished);
    assert_eq!(arcade.computer.output.len(), 3);
    assert_eq!(arcade.count_tiles(Tile::Wall), 0);
    arcade.consume_output();
    assert_eq!(arcade.screen[45], Tile::Wall);
}

#[test]
fn score_keeps_its_low_32_bits() {
    let mut arcade = Arcade::new(vec![104, -1, 104, 0, 104, 4294967301, 3, 50, 99]);
    arcade.run();
    assert_eq!(arcade.score, 5);
    let mut arcade = Arcade::new(vec![104, -1, 104, 0, 104, -1, 3, 50, 99]);
    arcade.run();
    assert_eq!(arcade.score, 4294967295);
    let mut arcade = Arcade::new(vec![104, -1, 104, 0, 104, -4294967296, 3, 50, 99]);
    arcade.run();
    assert_eq!(arcade.score, 0);
}
