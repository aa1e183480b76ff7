//! An arcade cabinet: an Intcode program that draws tiles on a screen, keeps
//! a score, and is steered with a joystick.

use vstd::prelude::*;
use crate::computer::IntComputer;
use crate::machine::{Machine, ProgramState};

verus! {

/// The number of tiles in a row of the screen.
pub const WIDTH: usize = 44;

/// The number of rows of the screen.
pub const HEIGHT: usize = 20;

/// The number of tiles of the screen.
pub const TILES: usize = 880;

/// What a tile of the screen shows.
#[derive(Debug, Clone, Copy, PartialEq, Eq, Structural)]
pub enum Tile {
    Empty,
    Wall,
    Block,
    Paddle,
    Ball,
}

/// The tile that a number of the program stands for.
pub open spec fn tile_of_code(code: i64) -> Option<Tile> {
    if code == 0 {
        Some(Tile::Empty)
    } else if code == 1 {
        Some(Tile::Wall)
    } else if code == 2 {
        Some(Tile::Block)
    } else if code == 3 {
        Some(Tile::Paddle)
    } else if code == 4 {
        Some(Tile::Ball)
    } else {
        None
    }
}

/// The number that stands for a tile.
pub open spec fn code_of_tile(tile: Tile) -> u32 {
    match tile {
        Tile::Empty => 0,
        Tile::Wall => 1,
        Tile::Block => 2,
        Tile::Paddle => 3,
        Tile::Ball => 4,
    }
}

impl Tile {
    /// The tile that `code` stands for, if it stands for one.
    pub fn from_code(code: i64) -> (tile: Option<Tile>)
        ensures
            tile == tile_of_code(code),
    {
        if code == 0 {
            Some(Tile::Empty)
        } else if code == 1 {
            Some(Tile::Wall)
        } else if code == 2 {
            Some(Tile::Block)
        } else if code == 3 {
            Some(Tile::Paddle)
        } else if code == 4 {
            Some(Tile::Ball)
        } else {
            None
        }
    }

    /// The number that stands for the tile.
    pub fn code(self) -> (code: u32)
        ensures
            code == code_of_tile(self),
            tile_of_code(code as i64) == Some(self),
    {
        match self {
            Tile::Empty => 0,
            Tile::Wall => 1,
            Tile::Block => 2,
            Tile::Paddle => 3,
            Tile::Ball => 4,
        }
    }
}

/// The place of the first `tile` on `screen`, or the length of `screen`
/// where it shows none.
pub open spec fn first_place(screen: Seq<Tile>, tile: Tile) -> int
    decreases screen.len(),
{
    if screen.len() == 0 || screen[0] == tile {
        0
    } else {
        1 + first_place(screen.drop_first(), tile)
    }
}

/// `first_place` finds `i` where no `tile` shows before `i` and one shows at
/// `i`, or `i` is the end.
pub proof fn lemma_first_place(screen: Seq<Tile>, tile: Tile, i: int)
    requires
        0 <= i <= screen.len(),
        forall|k: int| 0 <= k < i ==> screen[k] != tile,
        i == screen.len() || screen[i] == tile,
    ensures
        first_place(screen, tile) == i,
    decreases i,
{
    if i > 0 {
        lemma_first_place(screen.drop_first(), tile, i - 1);
    }
}

/// How often `tile` shows on the first `upto` places of `screen`.
pub open spec fn tiles_shown(screen: Seq<Tile>, tile: Tile, upto: int) -> int
    decreases upto,
{
    if upto <= 0 {
        0
    } else {
        tiles_shown(screen, tile, upto - 1) + if screen[upto - 1] == tile {
            1int
        } else {
            0int
        }
    }
}

/// The cabinet: the program, the screen row by row, and the score.
pub struct Cabinet {
    pub computer: Machine,
    pub screen: Seq<Tile>,
    pub score: u32,
}

impl Cabinet {
    /// One instruction of the program carried out. With `x` minus one and
    /// `y` zero, `value` is the new score, cut down to its low 32 bits.
    /// Otherwise `value` stands for a tile, which is drawn in column `x` of
    /// row `y`. `None` where the number stands for no tile or the place is
    /// not on the screen.
    pub open spec fn draw(self, x: i64, y: i64, value: i64) -> Option<Cabinet> {
        if x == -1 && y == 0 {
            Some(Cabinet { score: (value % 4294967296) as u32, ..self })
        } else {
            match tile_of_code(value) {
                Some(tile) => {
                    if 0 <= x && 0 <= y && x + y * WIDTH < self.screen.len() {
                        Some(Cabinet { screen: self.screen.update(x + y * WIDTH, tile), ..self })
                    } else {
                        None
                    }
                },
                None => None,
            }
        }
    }

    /// All output of the program carried out, three numbers at a time, oldest
    /// first. `None` where numbers are left over or an instruction cannot be
    /// carried out.
    pub open spec fn consume(self) -> Option<Cabinet>
        decreases self.computer.output.len(),
    {
        let output = self.computer.output;
        if output.len() == 0 {
            Some(self)
        } else if output.len() < 3 {
            None
        } else {
            let rest = Cabinet {
                computer: Machine { output: output.skip(3), ..self.computer },
                ..self
            };
            match rest.draw(output[0], output[1], output[2]) {
                Some(next) => next.consume(),
                None => None,
            }
        }
    }

    /// The cabinet with its program run until it comes to rest.
    pub open spec fn rested(self) -> Cabinet {
        Cabinet { computer: self.computer.run_outcome(), ..self }
    }

    /// The program comes to rest, and where it then waits for the joystick,
    /// its output can be carried out.
    pub open spec fn can_run(self) -> bool {
        &&& self.computer.run_settles()
        &&& self.rested().computer.state == ProgramState::WaitingForInput
            ==> self.rested().consume() is Some
    }

    /// The cabinet after a turn of the game: the program run until it comes
    /// to rest, and, where it then waits for the joystick, its output carried
    /// out.
    pub open spec fn after_run(self) -> Cabinet {
        if self.rested().computer.state == ProgramState::WaitingForInput {
            self.rested().consume().unwrap()
        } else {
            self.rested()
        }
    }

    /// Where the joystick goes: towards the ball, as seen from the paddle.
    pub open spec fn joystick(self) -> i64 {
        let ball = first_place(self.screen, Tile::Ball) % (WIDTH as int);
        let paddle = first_place(self.screen, Tile::Paddle) % (WIDTH as int);
        if ball < paddle {
            -1i64
        } else if ball > paddle {
            1
        } else {
            0
        }
    }
}

/// The arcade cabinet.
pub struct Arcade {
    pub screen: [Tile; 880],
    pub computer: IntComputer,
    pub score: u32,
}

impl View for Arcade {
    type V = Cabinet;

    open spec fn view(&self) -> Cabinet {
        Cabinet { computer: self.computer@, screen: self.screen@, score: self.score }
    }
}

impl Arcade {
    /// A cabinet with an empty screen and no score.
    pub fn new(program: Vec<i64>) -> (arcade: Arcade)
        ensures
            arcade@.computer == Machine::boot(program@),
            arcade@.score == 0,
            arcade@.screen.len() == TILES,
            forall|i: int| 0 <= i < TILES ==> arcade@.screen[i] == Tile::Empty,
    {
        Arcade { screen: [Tile::Empty;880], computer: IntComputer::new(program), score: 0 }
    }

    /// Plays one turn: lets the program run until it halts or waits for the
    /// joystick, and in the latter case carries out its output.
    pub fn run(&mut self)
        requires
            old(self)@.can_run(),
        ensures
            final(self)@ == old(self)@.after_run(),
    {
        self.computer.run();
        match self.computer.state {
            ProgramState::WaitingForInput => {
                self.consume_output();
            },
            _ => {},
        }
    }

    /// Pushes the joystick to the left.
    pub fn left(&mut self)
        ensures
            final(self)@ == (Cabinet { computer: old(self)@.computer.with_input(-1i64), ..old(self)@ }),
    {
        self.computer.push_input(-1);
    }

    /// Pushes the joystick to the right.
    pub fn right(&mut self)
        ensures
            final(self)@ == (Cabinet { computer: old(self)@.computer.with_input(1), ..old(self)@ }),
    {
        self.computer.push_input(1);
    }

    /// Leaves the joystick in the middle.
    pub fn neutral(&mut self)
        ensures
            final(self)@ == (Cabinet { computer: old(self)@.computer.with_input(0), ..old(self)@ }),
    {
        self.computer.push_input(0);
    }

    /// Carries out all output of the program, three numbers at a time: a
    /// tile to draw, or the score.
    pub fn consume_output(&mut self)
        requires
            old(self)@.consume() is Some,
        ensures
            Some(final(self)@) == old(self)@.consume(),
    {
        while self.computer.output.len() > 0
            invariant
                self@.consume() is Some,
                self@.consume() == old(self)@.consume(),
            decreases self.computer.output.len(),
        {
            let ghost before = self@;
            let x = self.computer.pop_output();
            let y = self.computer.pop_output();
            let value = self.computer.pop_output();
            proof {
                assert(self.computer@.output =~= before.computer.output.skip(3));
            }
            if x == -1 && y == 0 {
                let low: i64 = value % 4294967296;
                self.score = if low < 0 {
                    (low + 4294967296) as u32
                } else {
                    low as u32
                };
            } else {
                match Tile::from_code(value) {
                    Some(tile) => {
                        self.screen[(x as usize) + (y as usize) * WIDTH] = tile;
                    },
                    None => {
                        assert(false);
                    },
                }
            }
        }
    }

    /// Counts the tiles of one kind on the screen.
    pub fn count_tiles(&self, tile: Tile) -> (count: usize)
        ensures
            count == tiles_shown(self@.screen, tile, TILES as int),
    {
        let mut count: usize = 0;
        let mut i: usize = 0;
        while i < TILES
            invariant
                i <= TILES,
                count <= i,
                count == tiles_shown(self@.screen, tile, i as int),
            decreases TILES - i,
        {
            if self.screen[i] == tile {
                count += 1;
            }
            i += 1;
        }
        count
    }

    /// The place on the screen of the first tile of one kind, if there is
    /// one.
    pub fn position_of(&self, tile: Tile) -> (place: Option<usize>)
        ensures
            match place {
                Some(i) => i < TILES && i == first_place(self@.screen, tile),
                None => first_place(self@.screen, tile) == TILES,
            },
    {
        let mut i: usize = 0;
        while i < TILES
            invariant
                i <= TILES,
                forall|k: int| 0 <= k < i ==> self@.screen[k] != tile,
            decreases TILES - i,
        {
            if self.screen[i] == tile {
                proof {
                    lemma_first_place(self@.screen, tile, i as int);
                }
                return Some(i);
            }
            i += 1;
        }
        proof {
            lemma_first_place(self@.screen, tile, TILES as int);
        }
        None
    }

    /// Moves the joystick towards the ball, as seen from the paddle.
    pub fn steer(&mut self)
        requires
            first_place(old(self)@.screen, Tile::Ball) < TILES,
            first_place(old(self)@.screen, Tile::Paddle) < TILES,
        ensures
            final(self)@ == (Cabinet {
                computer: old(self)@.computer.with_input(old(self)@.joystick()),
                ..old(self)@
            }),
    {
        let ball_x = match self.position_of(Tile::Ball) {
            Some(i) => i % WIDTH,
            None => vstd::pervasive::unreached(),
        };
        let paddle_x = match self.position_of(Tile::Paddle) {
            Some(i) => i % WIDTH,
            None => vstd::pervasive::unreached(),
        };
        if ball_x < paddle_x {
            self.left()
        }
        if ball_x > paddle_x {
            self.right()
        }
        if ball_x == paddle_x {
            self.neutral()
        }
    }
}

} // verus!
