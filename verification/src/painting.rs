//! A robot that paints the panels of a hull black or white as an Intcode
//! program tells it to.

use std::collections::HashMap;
use vstd::prelude::*;
use vstd::std_specs::iter::IteratorSpec;
use crate::computer::IntComputer;
use crate::machine::{lemma_run_outcome_rests, Machine, ProgramState};
use crate::text::string_of;

verus! {

broadcast use vstd::std_specs::hash::group_hash_axioms;

/// The way the robot faces.
#[derive(Debug, PartialEq, Eq, Structural, Clone, Copy)]
pub enum Direction {
    Up,
    Down,
    Left,
    Right,
}

/// The colour of a panel.
#[derive(Debug, PartialEq, Eq, Structural, Clone, Copy)]
pub enum Color {
    Black,
    White,
}

/// A panel of the hull.
#[derive(Debug, PartialEq, Eq, Structural, Hash, Clone, Copy)]
pub struct Position {
    pub x: i64,
    pub y: i64,
}

/// The number under which the panel at `pos` is kept in a map.
pub open spec fn panel_key(pos: Position) -> i128 {
    (pos.x * 18446744073709551616 + (pos.y + 9223372036854775808)) as i128
}

/// Two panels with the same key are the same panel.
pub proof fn lemma_panel_key_injective(a: Position, b: Position)
    requires
        panel_key(a) == panel_key(b),
    ensures
        a == b,
{
}

/// Computes the key of a panel.
pub fn key_of_panel(pos: &Position) -> (key: i128)
    ensures
        key == panel_key(*pos),
{
    (pos.x as i128) * 18446744073709551616 + ((pos.y as i128) + 9223372036854775808)
}

/// The panel that is kept under `key`.
pub open spec fn panel_of_key(key: i128) -> Position {
    Position {
        x: (key / 18446744073709551616) as i64,
        y: (key % 18446744073709551616 - 9223372036854775808) as i64,
    }
}

/// Every key is the key of the panel that is kept under it.
pub proof fn lemma_panel_of_key(key: i128)
    ensures
        panel_key(panel_of_key(key)) == key,
{
}

/// Finds the panel that is kept under `key`.
pub fn key_to_panel(key: i128) -> (pos: Position)
    ensures
        pos == panel_of_key(key),
        panel_key(pos) == key,
{
    let mut q: i128 = key / 18446744073709551616;
    let mut m: i128 = key % 18446744073709551616;
    if m < 0 {
        q = q - 1;
        m = m + 18446744073709551616;
    }
    Position { x: q as i64, y: (m - 9223372036854775808) as i64 }
}

/// The part of the hull that has been painted: the columns and rows between
/// which all painted panels lie.
#[derive(Debug, PartialEq, Eq, Structural, Clone, Copy)]
pub struct Frame {
    pub x_min: i64,
    pub x_max: i64,
    pub y_min: i64,
    pub y_max: i64,
}

/// The frame holds the panel.
pub open spec fn frame_holds(frame: Frame, pos: Position) -> bool {
    frame.x_min <= pos.x <= frame.x_max && frame.y_min <= pos.y <= frame.y_max
}

/// The frame holds every panel kept under one of `keys`, and each of its
/// sides touches one of them.
pub open spec fn is_frame(frame: Frame, keys: Set<i128>) -> bool {
    &&& forall|key: i128| keys.contains(key) ==> frame_holds(frame, #[trigger] panel_of_key(key))
    &&& exists|key: i128| keys.contains(key) && (#[trigger] panel_of_key(key)).x == frame.x_min
    &&& exists|key: i128| keys.contains(key) && (#[trigger] panel_of_key(key)).x == frame.x_max
    &&& exists|key: i128| keys.contains(key) && (#[trigger] panel_of_key(key)).y == frame.y_min
    &&& exists|key: i128| keys.contains(key) && (#[trigger] panel_of_key(key)).y == frame.y_max
}

/// The character that shows a panel: a full block where it is painted
/// white, a blank where it is black or was never painted.
pub open spec fn glyph(painted: Map<i128, Color>, x: int, y: int) -> char {
    let key = (x * 18446744073709551616 + (y + 9223372036854775808)) as i128;
    if painted.contains_key(key) && painted[key] == Color::White {
        '\u{2588}'
    } else {
        ' '
    }
}

/// The number that stands for a colour: zero for black, one for white.
pub open spec fn color_code(c: Color) -> i64 {
    match c {
        Color::Black => 0,
        Color::White => 1,
    }
}

/// The colour that a number of the program stands for.
pub open spec fn color_of_code(code: i64) -> Option<Color> {
    if code == 0 {
        Some(Color::Black)
    } else if code == 1 {
        Some(Color::White)
    } else {
        None
    }
}

/// The direction a quarter turn to the left of `dir`.
pub open spec fn left_of(dir: Direction) -> Direction {
    match dir {
        Direction::Up => Direction::Left,
        Direction::Down => Direction::Right,
        Direction::Left => Direction::Down,
        Direction::Right => Direction::Up,
    }
}

/// The direction a quarter turn to the right of `dir`.
pub open spec fn right_of(dir: Direction) -> Direction {
    match dir {
        Direction::Up => Direction::Right,
        Direction::Down => Direction::Left,
        Direction::Left => Direction::Up,
        Direction::Right => Direction::Down,
    }
}

/// The coordinates one panel from `pos` in direction `dir`.
pub open spec fn ahead_of(pos: Position, dir: Direction) -> (int, int) {
    match dir {
        Direction::Up => (pos.x as int, pos.y + 1),
        Direction::Down => (pos.x as int, pos.y - 1),
        Direction::Left => (pos.x - 1, pos.y as int),
        Direction::Right => (pos.x + 1, pos.y as int),
    }
}

/// The robot and the hull: the controlling program, where the robot stands
/// and faces, and the colour of every panel painted so far.
pub struct Painter {
    pub computer: Machine,
    pub pos: Position,
    pub dir: Direction,
    pub painted: Map<i128, Color>,
}

impl Painter {
    /// The colour code of the panel under the robot: that of the colour it
    /// was last painted, or that of black where it was never painted.
    pub open spec fn color_here(self) -> i64 {
        if self.painted.contains_key(panel_key(self.pos)) {
            color_code(self.painted[panel_key(self.pos)])
        } else {
            0
        }
    }

    /// There is a panel ahead of the robot.
    pub open spec fn can_move(self) -> bool {
        let (x, y) = ahead_of(self.pos, self.dir);
        i64::MIN <= x <= i64::MAX && i64::MIN <= y <= i64::MAX
    }

    /// The robot moved one panel ahead.
    pub open spec fn moved(self) -> Painter {
        let (x, y) = ahead_of(self.pos, self.dir);
        Painter { pos: Position { x: x as i64, y: y as i64 }, ..self }
    }

    /// One instruction of the program carried out: the panel under the robot
    /// painted as `color` says, the robot turned left for a `turn` of zero
    /// and right for one, and moved one panel ahead. `None` where a number
    /// has no meaning or there is no panel ahead.
    pub open spec fn obey(self, color: i64, turn: i64) -> Option<Painter> {
        match color_of_code(color) {
            Some(c) => {
                let painted = Painter {
                    painted: self.painted.insert(panel_key(self.pos), c),
                    ..self
                };
                if turn == 0 || turn == 1 {
                    let turned = Painter {
                        dir: if turn == 0 {
                            left_of(self.dir)
                        } else {
                            right_of(self.dir)
                        },
                        ..painted
                    };
                    if turned.can_move() {
                        Some(turned.moved())
                    } else {
                        None
                    }
                } else {
                    None
                }
            },
            None => None,
        }
    }

    /// All output of the program carried out, two numbers at a time, oldest
    /// first. `None` where a number is left over or an instruction cannot be
    /// carried out.
    pub open spec fn consume(self) -> Option<Painter>
        decreases self.computer.output.len(),
    {
        let output = self.computer.output;
        if output.len() == 0 {
            Some(self)
        } else if output.len() == 1 {
            None
        } else {
            let rest = Painter {
                computer: Machine { output: output.skip(2), ..self.computer },
                ..self
            };
            match rest.obey(output[0], output[1]) {
                Some(next) => next.consume(),
                None => None,
            }
        }
    }

    /// The robot once its program has halted, provided that the program
    /// blocks on input at most `fuel` times before it does. Each time the
    /// program blocks, its output is carried out and the colour under the
    /// robot is queued as its input. Output that is left when the program
    /// halts is not carried out.
    pub open spec fn paint_for(self, fuel: nat) -> Option<Painter>
        decreases fuel,
    {
        if !self.computer.run_settles() {
            None
        } else {
            let rested = Painter { computer: self.computer.run_outcome(), ..self };
            if rested.computer.state == ProgramState::Finished {
                Some(rested)
            } else if fuel == 0 {
                None
            } else {
                match rested.consume() {
                    Some(done) => (Painter {
                        computer: done.computer.with_input(done.color_here()),
                        ..done
                    }).paint_for((fuel - 1) as nat),
                    None => None,
                }
            }
        }
    }

    /// The program halts after blocking on input finitely many times, and
    /// all its output until then can be carried out.
    pub open spec fn finishes(self) -> bool {
        exists|fuel: nat| (#[trigger] self.paint_for(fuel)) is Some
    }

    /// The robot and the hull once the program has halted.
    pub open spec fn finished(self) -> Painter
        recommends
            self.finishes(),
    {
        self.paint_for(choose|fuel: nat| (#[trigger] self.paint_for(fuel)) is Some).unwrap()
    }
}

/// More fuel than needed changes nothing.
pub proof fn lemma_paint_for_more_fuel(p: Painter, enough: nat, more: nat)
    requires
        p.paint_for(enough) is Some,
        enough <= more,
    ensures
        p.paint_for(more) == p.paint_for(enough),
    decreases enough,
{
    let rested = Painter { computer: p.computer.run_outcome(), ..p };
    if rested.computer.state != ProgramState::Finished {
        let done = rested.consume().unwrap();
        lemma_paint_for_more_fuel(
            Painter { computer: done.computer.with_input(done.color_here()), ..done },
            (enough - 1) as nat,
            (more - 1) as nat,
        );
    }
}

/// Whatever amount of fuel suffices, the robot ends up the same.
pub proof fn lemma_finished_is_unique(p: Painter, fuel: nat)
    requires
        p.paint_for(fuel) is Some,
    ensures
        p.finishes(),
        p.paint_for(fuel) == Some(p.finished()),
{
    let chosen = choose|f: nat| (#[trigger] p.paint_for(f)) is Some;
    if chosen <= fuel {
        lemma_paint_for_more_fuel(p, chosen, fuel);
    } else {
        lemma_paint_for_more_fuel(p, fuel, chosen);
    }
}

/// The painting robot.
pub struct PaintingRobot {
    pub computer: IntComputer,
    pub pos: Position,
    pub dir: Direction,
    pub painted: HashMap<i128, Color>,
}

impl View for PaintingRobot {
    type V = Painter;

    open spec fn view(&self) -> Painter {
        Painter {
            computer: self.computer@,
            pos: self.pos,
            dir: self.dir,
            painted: self.painted@,
        }
    }
}

impl PaintingRobot {
    /// A robot at the origin of an unpainted hull, facing up.
    pub fn new(program: Vec<i64>) -> (robot: PaintingRobot)
        ensures
            robot@ == (Painter {
                computer: Machine::boot(program@),
                pos: Position { x: 0, y: 0 },
                dir: Direction::Up,
                painted: Map::empty(),
            }),
    {
        PaintingRobot {
            computer: IntComputer::new(program),
            pos: Position { x: 0, y: 0 },
            dir: Direction::Up,
            painted: HashMap::new(),
        }
    }

    /// Lets the program paint until it halts.
    pub fn run(&mut self)
        requires
            old(self)@.finishes(),
        ensures
            final(self)@ == old(self)@.finished(),
    {
        let ghost start = self@;
        let ghost mut fuel: nat = choose|f: nat| (#[trigger] start.paint_for(f)) is Some;
        proof {
            lemma_finished_is_unique(start, fuel);
        }
        loop
            invariant_except_break
                self@.paint_for(fuel) == Some(start.finished()),
            ensures
                self@ == start.finished(),
            decreases fuel,
        {
            proof {
                lemma_run_outcome_rests(self.computer@);
            }
            self.computer.run();
            match self.computer.state {
                ProgramState::Finished => break ,
                ProgramState::Running => {
                    assert(false);
                },
                ProgramState::WaitingForInput => {
                    self.consume_output();
                    let color = self.read_color();
                    self.computer.push_input(color);
                    proof {
                        fuel = (fuel - 1) as nat;
                    }
                },
            }
        }
    }

    /// Turns the robot a quarter to the left.
    pub fn turn_left(&mut self)
        ensures
            final(self)@ == (Painter { dir: left_of(old(self).dir), ..old(self)@ }),
    {
        match self.dir {
            Direction::Up => self.dir = Direction::Left,
            Direction::Down => self.dir = Direction::Right,
            Direction::Left => self.dir = Direction::Down,
            Direction::Right => self.dir = Direction::Up,
        }
    }

    /// Turns the robot a quarter to the right.
    pub fn turn_right(&mut self)
        ensures
            final(self)@ == (Painter { dir: right_of(old(self).dir), ..old(self)@ }),
    {
        match self.dir {
            Direction::Up => self.dir = Direction::Right,
            Direction::Down => self.dir = Direction::Left,
            Direction::Left => self.dir = Direction::Up,
            Direction::Right => self.dir = Direction::Down,
        }
    }

    /// Moves the robot one panel ahead.
    pub fn move_forward(&mut self)
        requires
            old(self)@.can_move(),
        ensures
            final(self)@ == old(self)@.moved(),
    {
        match self.dir {
            Direction::Up => self.pos.y += 1,
            Direction::Down => self.pos.y -= 1,
            Direction::Left => self.pos.x -= 1,
            Direction::Right => self.pos.x += 1,
        }
    }

    /// Carries out all output of the program, two numbers at a time: paint
    /// the panel under the robot, turn, move ahead.
    pub fn consume_output(&mut self)
        requires
            old(self)@.consume() is Some,
        ensures
            Some(final(self)@) == old(self)@.consume(),
    {
        while self.computer.output.len() > 0
            invariant
                self@.consume() is Some,
                self@.consume() == old(self)@.consume(),
            decreases self.computer.output.len(),
        {
            let ghost before = self@;
            let code = self.computer.pop_output();
            let col = if code == 0 {
                Color::Black
            } else if code == 1 {
                Color::White
            } else {
                vstd::pervasive::unreached()
            };
            let turn = self.computer.pop_output();
            proof {
                assert(self.computer@.output =~= before.computer.output.skip(2));
            }
            self.paint(col);
            if turn == 0 {
                self.turn_left();
            } else if turn == 1 {
                self.turn_right();
            } else {
                assert(false);
            }
            self.move_forward();
        }
    }

    /// Paints the panel under the robot.
    pub fn paint(&mut self, c: Color)
        ensures
            final(self)@ == (Painter {
                painted: old(self)@.painted.insert(panel_key(old(self).pos), c),
                ..old(self)@
            }),
    {
        let key = key_of_panel(&self.pos);
        self.painted.insert(key, c);
    }

    /// The colour code of the panel under the robot; an unpainted panel is
    /// black.
    pub fn read_color(&self) -> (code: i64)
        ensures
            code == self@.color_here(),
    {
        let key = key_of_panel(&self.pos);
        match self.painted.get(&key) {
            Some(c) => match c {
                Color::Black => 0,
                Color::White => 1,
            },
            None => 0,
        }
    }
}

impl PaintingRobot {
    /// The columns and rows between which all painted panels lie, or `None`
    /// where no panel has been painted.
    pub fn frame(&self) -> (found: Option<Frame>)
        ensures
            match found {
                Some(frame) => is_frame(frame, self.painted@.dom()),
                None => self.painted@.dom() =~= Set::empty(),
            },
    {
        let mut found: Option<Frame> = None;
        let keys = self.painted.keys();
        let ghost all = keys.remaining().unref();
        assert(all.to_set() == self.painted@.dom());
        for key in it: keys
            invariant
                all == it.seq().unref(),
                all.to_set() == self.painted@.dom(),
                match found {
                    Some(frame) => is_frame(frame, all.take(it.index() as int).to_set()),
                    None => it.index() == 0,
                },
        {
            let pos = key_to_panel(*key);
            let ghost seen = all.take(it.index() as int).to_set();
            let ghost more = all.take(it.index() + 1).to_set();
            proof {
                assert(all[it.index() as int] == *key);
                assert(all.take(it.index() + 1) =~= all.take(it.index() as int).push(*key));
                all.take(it.index() as int).lemma_push_to_set_commute(*key);
                assert(more =~= seen.insert(*key));
            }
            found = match found {
                None => {
                    proof {
                        assert(seen =~= Set::empty());
                    }
                    Some(Frame { x_min: pos.x, x_max: pos.x, y_min: pos.y, y_max: pos.y })
                },
                Some(frame) => {
                    let grown = Frame {
                        x_min: if pos.x < frame.x_min {
                            pos.x
                        } else {
                            frame.x_min
                        },
                        x_max: if pos.x > frame.x_max {
                            pos.x
                        } else {
                            frame.x_max
                        },
                        y_min: if pos.y < frame.y_min {
                            pos.y
                        } else {
                            frame.y_min
                        },
                        y_max: if pos.y > frame.y_max {
                            pos.y
                        } else {
                            frame.y_max
                        },
                    };
                    proof {
                        let a = choose|k: i128|
                            seen.contains(k) && (#[trigger] panel_of_key(k)).x == frame.x_min;
                        let b = choose|k: i128|
                            seen.contains(k) && (#[trigger] panel_of_key(k)).x == frame.x_max;
                        let c = choose|k: i128|
                            seen.contains(k) && (#[trigger] panel_of_key(k)).y == frame.y_min;
                        let d = choose|k: i128|
                            seen.contains(k) && (#[trigger] panel_of_key(k)).y == frame.y_max;
                        assert(more.contains(a) && more.contains(b) && more.contains(c)
                            && more.contains(d) && more.contains(*key));
                    }
                    Some(grown)
                },
            };
        }
        proof {
            assert(all.take(all.len() as int) =~= all);
            if found is None {
                assert(all.len() == 0);
                assert(all.to_set() =~= Set::empty());
            }
        }
        found
    }

    /// The painted part of the hull as lines of text, the top row first.
    pub fn render(&self) -> (lines: Vec<String>)
        requires
            exists|key: i128| self.painted@.contains_key(key),
        ensures
            exists|frame: Frame|
                {
                    &&& #[trigger] is_frame(frame, self.painted@.dom())
                    &&& lines@.len() == frame.y_max - frame.y_min + 1
                    &&& forall|j: int|
                        0 <= j < lines@.len() ==> {
                            &&& (#[trigger] lines@[j])@.len() == frame.x_max - frame.x_min + 1
                            &&& forall|i: int|
                                0 <= i < lines@[j]@.len() ==> lines@[j]@[i] == glyph(
                                    self.painted@,
                                    frame.x_min + i,
                                    frame.y_max - j,
                                )
                        }
                },
    {
        let frame = match self.frame() {
            Some(frame) => frame,
            None => {
                proof {
                    let key = choose|key: i128| self.painted@.contains_key(key);
                    assert(self.painted@.dom().contains(key));
                }
                vstd::pervasive::unreached()
            },
        };
        proof {
            let a = choose|k: i128|
                self.painted@.dom().contains(k) && (#[trigger] panel_of_key(k)).x == frame.x_min;
            let c = choose|k: i128|
                self.painted@.dom().contains(k) && (#[trigger] panel_of_key(k)).y == frame.y_min;
            assert(frame_holds(frame, panel_of_key(a)));
            assert(frame_holds(frame, panel_of_key(c)));
        }
        let mut lines: Vec<String> = Vec::new();
        let mut y: i128 = frame.y_max as i128;
        while y >= frame.y_min as i128
            invariant
                frame.x_min <= frame.x_max,
                frame.y_min - 1 <= y <= frame.y_max,
                lines@.len() == frame.y_max - y,
                forall|j: int|
                    0 <= j < lines@.len() ==> {
                        &&& (#[trigger] lines@[j])@.len() == frame.x_max - frame.x_min + 1
                        &&& forall|i: int|
                            0 <= i < lines@[j]@.len() ==> lines@[j]@[i] == glyph(
                                self.painted@,
                                frame.x_min + i,
                                frame.y_max - j,
                            )
                    },
            decreases y - frame.y_min + 1,
        {
            let mut line: Vec<char> = Vec::new();
            let mut x: i128 = frame.x_min as i128;
            while x <= frame.x_max as i128
                invariant
                    frame.x_min <= x <= frame.x_max + 1,
                    frame.y_min <= y <= frame.y_max,
                    line@.len() == x - frame.x_min,
                    forall|i: int|
                        0 <= i < line@.len() ==> line@[i] == glyph(
                            self.painted@,
                            frame.x_min + i,
                            y as int,
                        ),
                decreases frame.x_max + 1 - x,
            {
                let key = key_of_panel(&Position { x: x as i64, y: y as i64 });
                let c = match self.painted.get(&key) {
                    Some(Color::White) => '\u{2588}',
                    _ => ' ',
                };
                line.push(c);
                x = x + 1;
            }
            let ghost before = lines@;
            lines.push(string_of(&line));
            proof {
                assert forall|j: int| 0 <= j < lines@.len() implies {
                    &&& (#[trigger] lines@[j])@.len() == frame.x_max - frame.x_min + 1
                    &&& forall|i: int|
                        0 <= i < lines@[j]@.len() ==> lines@[j]@[i] == glyph(
                            self.painted@,
                            frame.x_min + i,
                            frame.y_max - j,
                        )
                } by {
                    if j < before.len() {
                        assert(lines@[j] == before[j]);
                    }
                }
            }
            y = y - 1;
        }
        lines
    }
}

} // verus!
