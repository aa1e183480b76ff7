use intcomputer::painting::{
    key_of_panel, key_to_panel, Color, Direction, Frame, PaintingRobot, Position,
};
use intcomputer::ProgramState;

fn painter() -> Vec<i64> {
    // Reads the colour under the robot, then gives a colour and a turn; seven
    // times. Reads once more, and halts.
    vec![
        3, 100, 104, 1, 104, 0, 3, 100, 104, 0, 104, 0, 3, 100, 104, 1, 104, 0, 3, 100, 104, 1,
        104, 0, 3, 100, 104, 0, 104, 1, 3, 100, 104, 1, 104, 0, 3, 100, 104, 1, 104, 0, 3, 100,
        99,
    ]
}

#[test]
fn new_robot_faces_up_at_the_origin() {
    let robot = PaintingRobot::new(vec![99]);
    assert_eq!(robot.pos, Position { x: 0, y: 0 });
    assert_eq!(robot.dir, Direction::Up);
    assert!(robot.painted.is_empty());
    assert_eq!(robot.computer.program, vec![99]);
    assert_eq!(robot.read_color(), 0);
}

#[test]
fn turns_go_round() {
    let mut robot = PaintingRobot::new(vec![99]);
    robot.turn_left();
    assert_eq!(robot.dir, Direction::Left);
    robot.turn_left();
    assert_eq!(robot.dir, Direction::Down);
    robot.turn_left();
    assert_eq!(robot.dir, Direction::Right);
    robot.turn_left();
    assert_eq!(robot.dir, Direction::Up);
    robot.turn_right();
    assert_eq!(robot.dir, Direction::Right);
    robot.turn_right();
    assert_eq!(robot.dir, Direction::Down);
    robot.turn_right();
    assert_eq!(robot.dir, Direction::Left);
    robot.turn_right();
    assert_eq!(robot.dir, Direction::Up);
}

#[test]
fn moves_follow_the_direction() {
    let mut robot = PaintingRobot::new(vec![99]);
    robot.move_forward();
    assert_eq!(robot.pos, Position { x: 0, y: 1 });
    robot.turn_right();
    robot.move_forward();
    assert_eq!(robot.pos, Position { x: 1, y: 1 });
    robot.turn_right();
    robot.move_forward();
    robot.move_forward();
    assert_eq!(robot.pos, Position { x: 1, y: -1 });
    robot.turn_right();
    robot.move_forward();
    assert_eq!(robot.pos, Position { x: 0, y: -1 });
}

#[test]
fn paint_and_read_back() {
    let mut robot = PaintingRobot::new(vec![99]);
    robot.paint(Color::White);
    assert_eq!(robot.read_color(), 1);
    robot.move_forward();
    assert_eq!(robot.read_color(), 0);
    robot.paint(Color::Black);
    assert_eq!(robot.read_color(), 0);
    assert_eq!(robot.painted.len(), 2);
    robot.turn_left();
    robot.turn_left();
    robot.move_forward();
    assert_eq!(robot.read_color(), 1);
    robot.paint(Color::Black);
    assert_eq!(robot.read_color(), 0);
    assert_eq!(robot.painted.len(), 2);
    assert_eq!(robot.painted.get(&key_of_panel(&Position { x: 0, y: 1 })), Some(&Color::Black));
}

#[test]
fn panel_keys_tell_panels_apart() {
    let panels = [
        Position { x: 0, y: 0 },
        Position { x: 0, y: 1 },
        Position { x: 1, y: 0 },
        Position { x: -1, y: 0 },
        Position { x: 0, y: -1 },
        Position { x: i64::MAX, y: i64::MIN },
        Position { x: i64::MIN, y: i64::MAX },
    ];
    for a in &panels {
        for b in &panels {
            assert_eq!(key_of_panel(a) == key_of_panel(b), a == b);
        }
    }
    assert_eq!(key_of_panel(&Position { x: 0, y: 0 }), 9223372036854775808);
    assert_eq!(key_of_panel(&Position { x: i64::MIN, y: i64::MIN }), i128::MIN);
    assert_eq!(key_of_panel(&Position { x: i64::MAX, y: i64::MAX }), i128::MAX);
}

#[test]
fn output_is_carried_out_in_pairs() {
    let mut robot = PaintingRobot::new(vec![104, 1, 104, 0, 104, 0, 104, 1, 3, 50, 99]);
    robot.computer.run();
    assert_eq!(robot.computer.state, ProgramState::WaitingForInput);
    robot.consume_output();
    assert!(robot.computer.output.is_empty());
    assert_eq!(robot.pos, Position { x: -1, y: 1 });
    assert_eq!(robot.dir, Direction::Up);
    assert_eq!(robot.painted.get(&key_of_panel(&Position { x: 0, y: 0 })), Some(&Color::White));
    assert_eq!(robot.painted.get(&key_of_panel(&Position { x: -1, y: 0 })), Some(&Color::Black));
    assert_eq!(robot.painted.len(), 2);
}

#[test]
fn robot_paints_until_the_program_halts() {
    let mut robot = PaintingRobot::new(painter());
    robot.run();
    assert_eq!(robot.computer.state, ProgramState::Finished);
    assert_eq!(robot.painted.len(), 6);
    assert_eq!(robot.pos, Position { x: 0, y: 1 });
    assert_eq!(robot.dir, Direction::Left);
    let white = [(-1, -1), (0, -1), (1, 0), (1, 1)];
    let black = [(0, 0), (-1, 0)];
    for (x, y) in white {
        assert_eq!(robot.painted.get(&key_of_panel(&Position { x, y })), Some(&Color::White));
    }
    for (x, y) in black {
        assert_eq!(robot.painted.get(&key_of_panel(&Position { x, y })), Some(&Color::Black));
    }
}

#[test]
fn output_left_at_the_halt_is_not_carried_out() {
    let mut robot = PaintingRobot::new(vec![3, 20, 104, 1, 104, 1, 99]);
    robot.run();
    assert_eq!(robot.computer.state, ProgramState::Finished);
    assert!(robot.painted.is_empty());
    assert_eq!(robot.pos, Position { x: 0, y: 0 });
    assert_eq!(robot.computer.output.len(), 2);
}

#[test]
fn program_is_told_the_colour_under_the_robot() {
    // Paints white, turns left twice round a square of four panels, and puts
    // out the colour it reads on its fifth stop, the origin again.
    let program = vec![
        3, 60, 104, 1, 104, 0, 3, 60, 104, 0, 104, 0, 3, 60, 104, 0, 104, 0, 3, 60, 104, 0, 104,
        0, 3, 60, 4, 60, 99,
    ];
    let mut robot = PaintingRobot::new(program);
    robot.run();
    assert_eq!(robot.pos, Position { x: 0, y: 0 });
    assert_eq!(robot.computer.pop_output(), 1);
}

#[test]
fn keys_lead_back_to_their_panels() {
    for x in [i64::MIN, -2, -1, 0, 1, 2, i64::MAX] {
        for y in [i64::MIN, -2, -1, 0, 1, 2, i64::MAX] {
            let panel = Position { x, y };
            assert_eq!(key_to_panel(key_of_panel(&panel)), panel);
        }
    }
    assert_eq!(key_to_panel(0), Position { x: 0, y: i64::MIN });
    assert_eq!(key_to_panel(-1), Position { x: -1, y: i64::MAX });
}

#[test]
fn frame_spans_the_painted_panels() {
    let mut robot = PaintingRobot::new(painter());
    assert_eq!(robot.frame(), None);
    robot.paint(Color::White);
    assert_eq!(robot.frame(), Some(Frame { x_min: 0, x_max: 0, y_min: 0, y_max: 0 }));
    robot.run();
    assert_eq!(robot.frame(), Some(Frame { x_min: -1, x_max: 1, y_min: -1, y_max: 1 }));
}

#[test]
fn hull_is_shown_top_row_first() {
    let mut robot = PaintingRobot::new(painter());
    robot.run();
    assert_eq!(robot.render(), vec!["  \u{2588}", "  \u{2588}", "\u{2588}\u{2588} "]);
    let mut robot = PaintingRobot::new(vec![99]);
    robot.paint(Color::Black);
    assert_eq!(robot.render(), vec![" "]);
    robot.move_forward();
    robot.move_forward();
    robot.paint(Color::White);
    assert_eq!(robot.render(), vec!["\u{2588}", " ", " "]);
}
