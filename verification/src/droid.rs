//! A repair droid that explores an unknown area one step at a time, steered
//! through an Intcode program.

use vstd::prelude::*;
use crate::computer::IntComputer;
use crate::machine::Machine;

verus! {

/// The four ways the droid can move.
#[derive(Debug, PartialEq, Eq, Structural, Clone, Copy)]
pub enum Direction {
    West,
    East,
    North,
    South,
}

/// What the droid finds where it tries to go.
#[derive(Debug, PartialEq, Eq, Structural, Clone, Copy)]
pub enum Tile {
    Wall,
    Empty,
    Oxygen,
}

/// A position in the area.
#[derive(Clone, Copy, Debug, Eq, Hash, Ord, PartialEq, PartialOrd, Structural)]
pub struct Pos(pub i32, pub i32);

/// The coordinates one step from `(x, y)` in direction `dir`.
pub open spec fn step_from(x: int, y: int, dir: Direction) -> (int, int) {
    match dir {
        Direction::North => (x + 1, y),
        Direction::South => (x - 1, y),
        Direction::West => (x, y - 1),
        Direction::East => (x, y + 1),
    }
}

/// The distance between two positions, going along the grid.
pub open spec fn grid_distance(a: Pos, b: Pos) -> int {
    (if a.0 - b.0 < 0 {
        b.0 - a.0
    } else {
        a.0 - b.0
    }) + (if a.1 - b.1 < 0 {
        b.1 - a.1
    } else {
        a.1 - b.1
    })
}

/// The command that moves the droid in direction `dir`.
pub open spec fn command(dir: Direction) -> i64 {
    match dir {
        Direction::North => 1,
        Direction::South => 2,
        Direction::West => 3,
        Direction::East => 4,
    }
}

/// The tile that a status reply stands for.
pub open spec fn tile_of_reply(reply: i64) -> Option<Tile> {
    if reply == 0 {
        Some(Tile::Wall)
    } else if reply == 1 {
        Some(Tile::Empty)
    } else if reply == 2 {
        Some(Tile::Oxygen)
    } else {
        None
    }
}

impl Pos {
    /// The position one step away in direction `dir` exists.
    pub open spec fn has_neighbor(self, dir: Direction) -> bool {
        let (x, y) = step_from(self.0 as int, self.1 as int, dir);
        i32::MIN <= x <= i32::MAX && i32::MIN <= y <= i32::MAX
    }

    /// The position one step away in direction `dir`.
    pub open spec fn neighbor_spec(self, dir: Direction) -> Pos {
        let (x, y) = step_from(self.0 as int, self.1 as int, dir);
        Pos(x as i32, y as i32)
    }

    /// All four positions one step away exist.
    pub open spec fn has_all_neighbors(self) -> bool {
        &&& self.has_neighbor(Direction::North)
        &&& self.has_neighbor(Direction::South)
        &&& self.has_neighbor(Direction::East)
        &&& self.has_neighbor(Direction::West)
    }

    /// The four positions one step away: north, south, east, west.
    pub open spec fn all_neighbors_spec(self) -> Seq<Pos> {
        seq![
            self.neighbor_spec(Direction::North),
            self.neighbor_spec(Direction::South),
            self.neighbor_spec(Direction::East),
            self.neighbor_spec(Direction::West),
        ]
    }

    /// The neighbor in direction `dir` alone, or nothing where it is already
    /// known as a wall or as empty.
    pub open spec fn unknown_neighbor(
        self,
        dir: Direction,
        walls: Seq<Pos>,
        empty: Seq<Pos>,
    ) -> Seq<Pos> {
        let n = self.neighbor_spec(dir);
        if walls.contains(n) || empty.contains(n) {
            Seq::empty()
        } else {
            seq![n]
        }
    }

    /// The neighbors, in the order north, south, east, west, that are known
    /// neither as a wall nor as empty.
    pub open spec fn unknown_neighbors_spec(self, walls: Seq<Pos>, empty: Seq<Pos>) -> Seq<Pos> {
        self.unknown_neighbor(Direction::North, walls, empty) + self.unknown_neighbor(
            Direction::South,
            walls,
            empty,
        ) + self.unknown_neighbor(Direction::East, walls, empty) + self.unknown_neighbor(
            Direction::West,
            walls,
            empty,
        )
    }

    /// The four positions one step away: north, south, east, west.
    pub fn all_neighbors(&self) -> (neighbors: Vec<Pos>)
        requires
            self.has_all_neighbors(),
        ensures
            neighbors@ == self.all_neighbors_spec(),
    {
        let mut neighbors: Vec<Pos> = Vec::new();
        neighbors.push(self.neighbor(Direction::North));
        neighbors.push(self.neighbor(Direction::South));
        neighbors.push(self.neighbor(Direction::East));
        neighbors.push(self.neighbor(Direction::West));
        assert(neighbors@ =~= self.all_neighbors_spec());
        neighbors
    }

    /// The neighbors that are listed neither in `walls` nor in `empty`.
    pub fn unknown_neighbors(&self, walls: &Vec<Pos>, empty: &Vec<Pos>) -> (unknown: Vec<Pos>)
        requires
            self.has_all_neighbors(),
        ensures
            unknown@ == self.unknown_neighbors_spec(walls@, empty@),
    {
        let all = self.all_neighbors();
        let mut unknown: Vec<Pos> = Vec::new();
        let ghost north = self.unknown_neighbor(Direction::North, walls@, empty@);
        let ghost south = self.unknown_neighbor(Direction::South, walls@, empty@);
        let ghost east = self.unknown_neighbor(Direction::East, walls@, empty@);
        let ghost west = self.unknown_neighbor(Direction::West, walls@, empty@);
        if !is_listed(walls, all[0]) && !is_listed(empty, all[0]) {
            unknown.push(all[0]);
        }
        assert(unknown@ =~= north);
        if !is_listed(walls, all[1]) && !is_listed(empty, all[1]) {
            unknown.push(all[1]);
        }
        assert(unknown@ =~= north + south);
        if !is_listed(walls, all[2]) && !is_listed(empty, all[2]) {
            unknown.push(all[2]);
        }
        assert(unknown@ =~= north + south + east);
        if !is_listed(walls, all[3]) && !is_listed(empty, all[3]) {
            unknown.push(all[3]);
        }
        assert(unknown@ =~= north + south + east + west);
        unknown
    }

    /// The position one step away in direction `dir`.
    pub fn neighbor(&self, dir: Direction) -> (n: Pos)
        requires
            self.has_neighbor(dir),
        ensures
            n == self.neighbor_spec(dir),
    {
        let Pos(x, y) = *self;
        match dir {
            Direction::North => Pos(x + 1, y),
            Direction::South => Pos(x - 1, y),
            Direction::West => Pos(x, y - 1),
            Direction::East => Pos(x, y + 1),
        }
    }

    /// The distance to `other`, going along the grid.
    pub fn dist(&self, other: &Pos) -> (d: u32)
        requires
            -i32::MAX <= self.0 - other.0 <= i32::MAX,
            -i32::MAX <= self.1 - other.1 <= i32::MAX,
            grid_distance(*self, *other) <= i32::MAX,
        ensures
            d == grid_distance(*self, *other),
    {
        let dx: i32 = self.0 - other.0;
        let dy: i32 = self.1 - other.1;
        let ax: i32 = if dx < 0 {
            -dx
        } else {
            dx
        };
        let ay: i32 = if dy < 0 {
            -dy
        } else {
            dy
        };
        (ax + ay) as u32
    }

    /// The direction in which `other` lies, where it is one step away.
    pub fn direction(&self, other: &Pos) -> (r: Result<Direction, ()>)
        requires
            -i32::MAX <= self.0 - other.0 <= i32::MAX,
            -i32::MAX <= self.1 - other.1 <= i32::MAX,
            grid_distance(*self, *other) <= i32::MAX,
        ensures
            r == (if grid_distance(*self, *other) != 1 {
                Err(())
            } else if self.0 < other.0 {
                Ok(Direction::West)
            } else if self.0 > other.0 {
                Ok(Direction::East)
            } else if self.1 < other.1 {
                Ok(Direction::North)
            } else {
                Ok(Direction::South)
            }),
    {
        if self.dist(other) != 1 {
            return Err(());
        }
        if self.0 < other.0 {
            return Ok(Direction::West);
        }
        if self.0 > other.0 {
            return Ok(Direction::East);
        }
        if self.1 < other.1 {
            return Ok(Direction::North);
        }
        if self.1 > other.1 {
            return Ok(Direction::South);
        }
        return Err(());
    }
}

/// Tells whether `p` is in `list`.
fn is_listed(list: &Vec<Pos>, p: Pos) -> (b: bool)
    ensures
        b == list@.contains(p),
{
    let mut i: usize = 0;
    while i < list.len()
        invariant
            i <= list.len(),
            forall|k: int| 0 <= k < i ==> list@[k] != p,
        decreases list.len() - i,
    {
        if list[i] == p {
            return true;
        }
        i += 1;
    }
    false
}

/// What the droid knows of the area: where it stands, and which positions it
/// found empty, found to be walls, or has yet to visit.
pub struct Survey {
    pub position: Pos,
    pub empty: Seq<Pos>,
    pub unknown: Seq<Pos>,
    pub walls: Seq<Pos>,
}

impl Survey {
    /// The survey once the droid has tried to go in direction `dir` and found
    /// `tile` there. A wall is noted and the droid stays. Otherwise the droid
    /// moves; an empty position is noted, and its neighbors that are not yet
    /// known are added to those to visit.
    pub open spec fn record(self, dir: Direction, tile: Tile) -> Survey {
        let dst = self.position.neighbor_spec(dir);
        match tile {
            Tile::Wall => Survey { walls: self.walls.push(dst), ..self },
            Tile::Oxygen => Survey { position: dst, ..self },
            Tile::Empty => Survey {
                position: dst,
                empty: self.empty.push(dst),
                unknown: self.unknown + dst.unknown_neighbors_spec(
                    self.walls,
                    self.empty.push(dst),
                ),
                ..self
            },
        }
    }
}

/// The droid: its controlling program and what it has learned so far.
#[derive(Debug)]
pub struct Robot {
    pub position: Pos,
    pub computer: IntComputer,
    pub empty: Vec<Pos>,
    pub unknown: Vec<Pos>,
    pub walls: Vec<Pos>,
}

impl Robot {
    /// What the droid knows of the area.
    pub open spec fn survey(&self) -> Survey {
        Survey {
            position: self.position,
            empty: self.empty@,
            unknown: self.unknown@,
            walls: self.walls@,
        }
    }

    /// The controlling program once it has been told to go in direction `dir`
    /// and has run until it comes to rest.
    pub open spec fn commanded(&self, dir: Direction) -> Machine {
        self.computer@.with_input(command(dir)).run_outcome()
    }

    /// The droid can take a step in direction `dir`: its program answers the
    /// command with a valid status, and the positions involved exist.
    pub open spec fn can_step(&self, dir: Direction) -> bool {
        &&& self.computer@.with_input(command(dir)).run_settles()
        &&& self.commanded(dir).output.len() > 0
        &&& tile_of_reply(self.commanded(dir).output[0]) is Some
        &&& self.position.has_neighbor(dir)
        &&& tile_of_reply(self.commanded(dir).output[0]) == Some(Tile::Empty)
            ==> self.position.neighbor_spec(dir).has_all_neighbors()
    }

    /// A droid at the origin of an area of which it knows only that the
    /// origin is empty.
    pub fn new(program: Vec<i64>) -> (robot: Robot)
        ensures
            robot.computer@ == Machine::boot(program@),
            robot.survey() == (Survey {
                position: Pos(0, 0),
                empty: seq![Pos(0, 0)],
                unknown: seq![Pos(-1i32, 0), Pos(1, 0), Pos(0, 1), Pos(0, -1i32)],
                walls: Seq::empty(),
            }),
    {
        let mut empty: Vec<Pos> = Vec::new();
        empty.push(Pos(0, 0));
        let mut unknown: Vec<Pos> = Vec::new();
        unknown.push(Pos(-1, 0));
        unknown.push(Pos(1, 0));
        unknown.push(Pos(0, 1));
        unknown.push(Pos(0, -1));
        let robot = Robot {
            position: Pos(0, 0),
            computer: IntComputer::new(program),
            empty,
            unknown,
            walls: Vec::new(),
        };
        assert(robot.empty@ =~= seq![Pos(0, 0)]);
        assert(robot.unknown@ =~= seq![Pos(-1i32, 0), Pos(1, 0), Pos(0, 1), Pos(0, -1i32)]);
        robot
    }

    /// Tries to go one step in direction `dir`, and returns what is there.
    pub fn step(&mut self, dir: Direction) -> (tile: Tile)
        requires
            old(self).can_step(dir),
        ensures
            Some(tile) == tile_of_reply(old(self).commanded(dir).output[0]),
            final(self).computer@ == old(self).commanded(dir).without_first_output(),
            final(self).survey() == old(self).survey().record(dir, tile),
    {
        match dir {
            Direction::North => self.computer.push_input(1),
            Direction::South => self.computer.push_input(2),
            Direction::West => self.computer.push_input(3),
            Direction::East => self.computer.push_input(4),
        }
        self.computer.run();
        let reply = self.computer.pop_output();
        let ret = if reply == 0 {
            Tile::Wall
        } else if reply == 1 {
            Tile::Empty
        } else if reply == 2 {
            Tile::Oxygen
        } else {
            vstd::pervasive::unreached()
        };

        let dst = self.position.neighbor(dir);

        match ret {
            Tile::Wall => self.walls.push(dst),
            Tile::Oxygen => self.position = dst,
            Tile::Empty => {
                self.position = dst;
                self.empty.push(dst);
                let mut found = self.position.unknown_neighbors(&self.walls, &self.empty);
                self.unknown.append(&mut found);
            },
        }
        ret
    }
}

} // verus!
