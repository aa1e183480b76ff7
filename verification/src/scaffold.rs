//! A vacuum robot on a scaffold, seen through a camera.

use std::collections::HashSet;
use vstd::prelude::*;
use crate::text::{number_text, push_number, string_of, texts_of};

verus! {

broadcast use vstd::std_specs::hash::group_hash_axioms;

/// The way the robot faces, as seen by the camera.
#[allow(non_camel_case_types)]
#[derive(Debug, PartialEq, Eq, Structural, Clone, Copy)]
pub enum AbsDirection {
    UP,
    DOWN,
    LEFT,
    RIGHT,
}

/// The number under which the tile in column `x` of row `y` is kept in a set.
pub open spec fn tile_key(x: int, y: int) -> int {
    x * 18446744073709551616 + y
}

/// Two tiles with the same key are the same tile.
pub proof fn lemma_tile_key_injective(x1: usize, y1: usize, x2: usize, y2: usize)
    requires
        tile_key(x1 as int, y1 as int) == tile_key(x2 as int, y2 as int),
    ensures
        x1 == x2,
        y1 == y2,
{
}

/// Computes the key of a tile.
pub fn key_of_tile(x: usize, y: usize) -> (key: u128)
    ensures
        key == tile_key(x as int, y as int),
{
    (x as u128) * 18446744073709551616 + (y as u128)
}

/// The tile next to `pos` in direction `dir`. Rows count downwards.
pub open spec fn tile_toward(pos: (isize, isize), dir: AbsDirection) -> (int, int) {
    match dir {
        AbsDirection::UP => (pos.0 as int, pos.1 - 1),
        AbsDirection::DOWN => (pos.0 as int, pos.1 + 1),
        AbsDirection::LEFT => (pos.0 - 1, pos.1 as int),
        AbsDirection::RIGHT => (pos.0 + 1, pos.1 as int),
    }
}

/// The direction a quarter turn to the left of `dir`.
pub open spec fn left_of(dir: AbsDirection) -> AbsDirection {
    match dir {
        AbsDirection::UP => AbsDirection::LEFT,
        AbsDirection::LEFT => AbsDirection::DOWN,
        AbsDirection::DOWN => AbsDirection::RIGHT,
        AbsDirection::RIGHT => AbsDirection::UP,
    }
}

/// The direction a quarter turn to the right of `dir`.
pub open spec fn right_of(dir: AbsDirection) -> AbsDirection {
    match dir {
        AbsDirection::UP => AbsDirection::RIGHT,
        AbsDirection::RIGHT => AbsDirection::DOWN,
        AbsDirection::DOWN => AbsDirection::LEFT,
        AbsDirection::LEFT => AbsDirection::UP,
    }
}

/// The tile has coordinates that a position can hold.
pub open spec fn is_tile(tile: (int, int)) -> bool {
    isize::MIN <= tile.0 <= isize::MAX && isize::MIN <= tile.1 <= isize::MAX
}

/// The tile is part of the scaffold.
pub open spec fn on_scaffold(scaffolding: Set<u128>, tile: (int, int)) -> bool {
    tile.0 >= 0 && tile.1 >= 0 && scaffolding.contains(tile_key(tile.0, tile.1) as u128)
}

/// The robot: where it stands, how it faces, and the scaffold it is on.
pub struct Robot<'a> {
    pub current_position: (isize, isize),
    pub current_direction: AbsDirection,
    /// The keys of the tiles of the scaffold.
    pub scaffolding: &'a HashSet<u128>,
}

impl Robot<'_> {
    /// The tile in front of the robot.
    pub fn tile_ahead(&self) -> (tile: (isize, isize))
        requires
            is_tile(tile_toward(self.current_position, self.current_direction)),
        ensures
            (tile.0 as int, tile.1 as int) == tile_toward(
                self.current_position,
                self.current_direction,
            ),
    {
        let (x, y) = self.current_position;
        match self.current_direction {
            AbsDirection::UP => (x, y - 1),
            AbsDirection::DOWN => (x, y + 1),
            AbsDirection::LEFT => (x - 1, y),
            AbsDirection::RIGHT => (x + 1, y),
        }
    }

    /// The tile to the left of the robot.
    pub fn tile_left(&self) -> (tile: (isize, isize))
        requires
            is_tile(tile_toward(self.current_position, left_of(self.current_direction))),
        ensures
            (tile.0 as int, tile.1 as int) == tile_toward(
                self.current_position,
                left_of(self.current_direction),
            ),
    {
        let (x, y) = self.current_position;
        match self.current_direction {
            AbsDirection::UP => (x - 1, y),
            AbsDirection::DOWN => (x + 1, y),
            AbsDirection::LEFT => (x, y + 1),
            AbsDirection::RIGHT => (x, y - 1),
        }
    }

    /// The tile to the right of the robot.
    pub fn tile_right(&self) -> (tile: (isize, isize))
        requires
            is_tile(tile_toward(self.current_position, right_of(self.current_direction))),
        ensures
            (tile.0 as int, tile.1 as int) == tile_toward(
                self.current_position,
                right_of(self.current_direction),
            ),
    {
        let (x, y) = self.current_position;
        match self.current_direction {
            AbsDirection::UP => (x + 1, y),
            AbsDirection::DOWN => (x - 1, y),
            AbsDirection::LEFT => (x, y - 1),
            AbsDirection::RIGHT => (x, y + 1),
        }
    }

    /// Turns the robot a quarter to the left.
    pub fn turn_left(&mut self)
        ensures
            final(self).current_direction == left_of(old(self).current_direction),
            final(self).current_position == old(self).current_position,
            final(self).scaffolding == old(self).scaffolding,
    {
        self.current_direction =
        match self.current_direction {
            AbsDirection::UP => AbsDirection::LEFT,
            AbsDirection::LEFT => AbsDirection::DOWN,
            AbsDirection::DOWN => AbsDirection::RIGHT,
            AbsDirection::RIGHT => AbsDirection::UP,
        }
    }

    /// Turns the robot a quarter to the right.
    pub fn turn_right(&mut self)
        ensures
            final(self).current_direction == right_of(old(self).current_direction),
            final(self).current_position == old(self).current_position,
            final(self).scaffolding == old(self).scaffolding,
    {
        self.current_direction =
        match self.current_direction {
            AbsDirection::UP => AbsDirection::RIGHT,
            AbsDirection::RIGHT => AbsDirection::DOWN,
            AbsDirection::DOWN => AbsDirection::LEFT,
            AbsDirection::LEFT => AbsDirection::UP,
        }
    }

    /// Moves the robot to the tile in front of it.
    pub fn step(&mut self)
        requires
            is_tile(tile_toward(old(self).current_position, old(self).current_direction)),
        ensures
            (final(self).current_position.0 as int, final(self).current_position.1 as int)
                == tile_toward(old(self).current_position, old(self).current_direction),
            final(self).current_direction == old(self).current_direction,
            final(self).scaffolding == old(self).scaffolding,
    {
        self.current_position = self.tile_ahead();
    }

    /// Tells whether `tile` is part of the scaffold.
    pub fn is_valid_move(&self, tile: (isize, isize)) -> (valid: bool)
        ensures
            valid == on_scaffold(self.scaffolding@, (tile.0 as int, tile.1 as int)),
    {
        let (x, y) = tile;
        if x < 0 || y < 0 {
            return false;
        }
        let key = key_of_tile(x as usize, y as usize);
        self.scaffolding.contains(&key)
    }
}

/// The number that the camera puts out at the end of a row.
pub const FEED: i64 = 10;

/// The number that the camera puts out for a tile of scaffold.
pub const SCAFFOLD: i64 = 35;

/// The number that the camera puts out for the robot where it faces up.
pub const ROBOT: i64 = 94;

/// The position of the first end of row in `output`, or the length of
/// `output` where it holds none.
pub open spec fn first_feed(output: Seq<i64>) -> int
    decreases output.len(),
{
    if output.len() == 0 || output[0] == FEED {
        0
    } else {
        1 + first_feed(output.drop_first())
    }
}

/// The rows that the camera has put out: one more than there are ends of
/// row.
pub open spec fn rows_of(output: Seq<i64>) -> Seq<Seq<i64>>
    decreases output.len(),
{
    let i = first_feed(output);
    if 0 <= i < output.len() {
        seq![output.take(i)] + rows_of(output.skip(i + 1))
    } else {
        seq![output]
    }
}

/// `first_feed` finds `i` where no end of row stands before `i` and one
/// stands at `i`, or `i` is the end.
pub proof fn lemma_first_feed(output: Seq<i64>, i: int)
    requires
        0 <= i <= output.len(),
        forall|k: int| 0 <= k < i ==> output[k] != FEED,
        i == output.len() || output[i] == FEED,
    ensures
        first_feed(output) == i,
    decreases i,
{
    if i > 0 {
        lemma_first_feed(output.drop_first(), i - 1);
    }
}

/// The places in the first `upto` cells of row `y` that hold `code`, from
/// left to right.
pub open spec fn row_marks(row: Seq<i64>, y: int, code: i64, upto: int) -> Seq<(usize, usize)>
    decreases upto,
{
    if upto <= 0 {
        Seq::empty()
    } else if row[upto - 1] == code {
        row_marks(row, y, code, upto - 1).push(((upto - 1) as usize, y as usize))
    } else {
        row_marks(row, y, code, upto - 1)
    }
}

/// The places in the first `upto` rows that hold `code`, row by row.
pub open spec fn marks(rows: Seq<Seq<i64>>, code: i64, upto: int) -> Seq<(usize, usize)>
    decreases upto,
{
    if upto <= 0 {
        Seq::empty()
    } else {
        marks(rows, code, upto - 1) + row_marks(
            rows[upto - 1],
            upto - 1,
            code,
            rows[upto - 1].len() as int,
        )
    }
}

/// What the camera shows.
pub struct Picture {
    /// The tiles of scaffold, row by row.
    pub tiles: Seq<(usize, usize)>,
    pub num_rows: int,
    pub num_cols: int,
    /// Where the robot stands.
    pub start: (usize, usize),
}

/// What the numbers that the camera has put out show: the tiles of scaffold,
/// the number of rows, the length of the first row, and the place of the
/// robot, which is the last place marked as such, or the origin.
pub open spec fn picture_of(output: Seq<i64>) -> Picture {
    let rows = rows_of(output);
    let robots = marks(rows, ROBOT, rows.len() as int);
    Picture {
        tiles: marks(rows, SCAFFOLD, rows.len() as int),
        num_rows: rows.len() as int,
        num_cols: rows[0].len() as int,
        start: if robots.len() > 0 {
            robots.last()
        } else {
            (0, 0)
        },
    }
}

/// The tile is a crossing: it lies neither in the first or last column nor
/// in the first or last row, and its four neighbours are scaffold.
pub open spec fn is_crossing(
    scaffolding: Set<u128>,
    num_rows: int,
    num_cols: int,
    tile: (usize, usize),
) -> bool {
    let (x, y) = tile;
    &&& x != 0 && x != num_cols - 1
    &&& y != 0 && y != num_rows - 1
    &&& scaffolding.contains(tile_key(x - 1, y as int) as u128)
    &&& scaffolding.contains(tile_key(x + 1, y as int) as u128)
    &&& scaffolding.contains(tile_key(x as int, y - 1) as u128)
    &&& scaffolding.contains(tile_key(x as int, y + 1) as u128)
}

/// The sum, over the crossings among the first `upto` tiles, of column times
/// row.
pub open spec fn alignment_sum(
    scaffolding: Set<u128>,
    num_rows: int,
    num_cols: int,
    tiles: Seq<(usize, usize)>,
    upto: int,
) -> int
    decreases upto,
{
    if upto <= 0 {
        0
    } else {
        alignment_sum(scaffolding, num_rows, num_cols, tiles, upto - 1) + if is_crossing(
            scaffolding,
            num_rows,
            num_cols,
            tiles[upto - 1],
        ) {
            tiles[upto - 1].0 * tiles[upto - 1].1
        } else {
            0
        }
    }
}

/// The keys of the tiles.
pub open spec fn keys_of(tiles: Seq<(usize, usize)>) -> Set<u128> {
    Set::new(
        |key: u128|
            exists|i: int|
                0 <= i < tiles.len() && key == tile_key(
                    (#[trigger] tiles[i]).0 as int,
                    tiles[i].1 as int,
                ),
    )
}

/// What the camera shows, ready for use.
pub struct Camera {
    /// The keys of the tiles of scaffold.
    pub scaffolding: HashSet<u128>,
    /// The tiles of scaffold, row by row.
    pub tiles: Vec<(usize, usize)>,
    pub num_rows: usize,
    pub num_cols: usize,
    pub start: (usize, usize),
}

impl View for Camera {
    type V = Picture;

    open spec fn view(&self) -> Picture {
        Picture {
            tiles: self.tiles@,
            num_rows: self.num_rows as int,
            num_cols: self.num_cols as int,
            start: self.start,
        }
    }
}

impl Camera {
    /// The set holds the keys of the tiles, and no others.
    pub open spec fn wf(&self) -> bool {
        &&& self.scaffolding@ == keys_of(self.tiles@)
        &&& forall|i: int|
            0 <= i < self.tiles@.len() ==> (#[trigger] self.tiles@[i]).0 < usize::MAX
                && self.tiles@[i].1 < usize::MAX
    }
}

/// Reads what the camera has put out.
pub fn read_camera(output: &Vec<i64>) -> (camera: Camera)
    requires
        output.len() < usize::MAX,
    ensures
        camera@ == picture_of(output@),
        camera.wf(),
{
    let n = output.len();
    let ghost rows = rows_of(output@);
    let mut scaffolding: HashSet<u128> = HashSet::new();
    let mut tiles: Vec<(usize, usize)> = Vec::new();
    let mut start: (usize, usize) = (0, 0);
    let mut num_cols: usize = 0;
    let mut y: usize = 0;
    let mut begin: usize = 0;
    let mut i: usize = 0;
    let ghost mut done: Seq<Seq<i64>> = Seq::empty();
    let ghost mut robots: Seq<(usize, usize)> = Seq::empty();
    proof {
        assert(output@.skip(0) =~= output@);
        assert(scaffolding@ =~= keys_of(tiles@));
    }
    while i < n
        invariant
            n == output@.len(),
            n < usize::MAX,
            begin <= i <= n,
            y == done.len(),
            y <= begin,
            rows == done + rows_of(output@.skip(begin as int)),
            forall|k: int| begin <= k < i ==> output@[k] != FEED,
            tiles@ == marks(done, SCAFFOLD, y as int) + row_marks(
                output@.skip(begin as int),
                y as int,
                SCAFFOLD,
                i - begin,
            ),
            robots == marks(done, ROBOT, y as int) + row_marks(
                output@.skip(begin as int),
                y as int,
                ROBOT,
                i - begin,
            ),
            start == (if robots.len() > 0 {
                robots.last()
            } else {
                (0usize, 0usize)
            }),
            y > 0 ==> num_cols == done[0].len(),
            scaffolding@ == keys_of(tiles@),
            forall|k: int|
                0 <= k < tiles@.len() ==> (#[trigger] tiles@[k]).0 < usize::MAX && tiles@[k].1
                    < usize::MAX,
        decreases n - i,
    {
        let c = output[i];
        let ghost rest = output@.skip(begin as int);
        assert(rest[i - begin] == c);
        if c == FEED {
            proof {
                lemma_first_feed(rest, i - begin);
                let row = rest.take(i - begin);
                assert(rest.skip(i - begin + 1) =~= output@.skip(i + 1));
                assert(rows =~= done.push(row) + rows_of(output@.skip(i + 1)));
                lemma_marks_push(done, row, SCAFFOLD);
                lemma_marks_push(done, row, ROBOT);
                lemma_row_marks_prefix(rest, row, y as int, SCAFFOLD, i - begin);
                lemma_row_marks_prefix(rest, row, y as int, ROBOT, i - begin);
                done = done.push(row);
                assert(row_marks(output@.skip(i + 1), y + 1, SCAFFOLD, 0) =~= Seq::empty());
                assert(row_marks(output@.skip(i + 1), y + 1, ROBOT, 0) =~= Seq::empty());
            }
            if y == 0 {
                num_cols = i - begin;
            }
            y += 1;
            begin = i + 1;
        } else if c == SCAFFOLD {
            let ghost before = tiles@;
            scaffolding.insert(key_of_tile(i - begin, y));
            tiles.push((i - begin, y));
            proof {
                assert forall|key: u128| scaffolding@.contains(key) <==> keys_of(tiles@).contains(
                    key,
                ) by {
                    if keys_of(before).contains(key) {
                        let k = choose|k: int|
                            0 <= k < before.len() && key == tile_key(
                                (#[trigger] before[k]).0 as int,
                                before[k].1 as int,
                            );
                        assert(tiles@[k] == before[k]);
                    }
                    if key == tile_key((i - begin) as int, y as int) {
                        assert(tiles@[before.len() as int] == ((i - begin) as usize, y));
                    }
                    if keys_of(tiles@).contains(key) {
                        let k = choose|k: int|
                            0 <= k < tiles@.len() && key == tile_key(
                                (#[trigger] tiles@[k]).0 as int,
                                tiles@[k].1 as int,
                            );
                        if k < before.len() {
                            assert(before[k] == tiles@[k]);
                        }
                    }
                }
                assert(scaffolding@ =~= keys_of(tiles@));
            }
        } else if c == ROBOT {
            start = (i - begin, y);
            proof {
                robots = robots.push(((i - begin) as usize, y));
            }
        }
        i += 1;
    }
    proof {
        let rest = output@.skip(begin as int);
        lemma_first_feed(rest, n - begin);
        assert(rows =~= done.push(rest));
        lemma_marks_push(done, rest, SCAFFOLD);
        lemma_marks_push(done, rest, ROBOT);
    }
    if y == 0 {
        num_cols = n - begin;
    }
    Camera { scaffolding, tiles, num_rows: y + 1, num_cols, start }
}

/// No sum of alignments is negative.
pub proof fn lemma_alignment_sum_nonnegative(
    scaffolding: Set<u128>,
    num_rows: int,
    num_cols: int,
    tiles: Seq<(usize, usize)>,
    upto: int,
)
    ensures
        0 <= alignment_sum(scaffolding, num_rows, num_cols, tiles, upto),
    decreases upto,
{
    if upto > 0 {
        lemma_alignment_sum_nonnegative(scaffolding, num_rows, num_cols, tiles, upto - 1);
        let (x, y) = tiles[upto - 1];
        assert(0 <= x * y) by (nonlinear_arith)
            requires
                0 <= x,
                0 <= y,
        ;
    }
}

impl Camera {
    /// Tells whether the tile is a crossing.
    fn is_intersection(&self, x: usize, y: usize) -> (b: bool)
        requires
            self.num_rows >= 1,
            self.num_cols >= 1,
            x < usize::MAX,
            y < usize::MAX,
        ensures
            b == is_crossing(
                self.scaffolding@,
                self.num_rows as int,
                self.num_cols as int,
                (x, y),
            ),
    {
        if x == 0 || x == self.num_cols - 1 {
            return false;
        }
        if y == 0 || y == self.num_rows - 1 {
            return false;
        }
        let left = key_of_tile(x - 1, y);
        let right = key_of_tile(x + 1, y);
        let above = key_of_tile(x, y - 1);
        let below = key_of_tile(x, y + 1);
        self.scaffolding.contains(&left) && self.scaffolding.contains(&right)
            && self.scaffolding.contains(&above) && self.scaffolding.contains(&below)
    }

    /// The sum, over all crossings of the scaffold, of column times row.
    pub fn alignment(&self) -> (sum: usize)
        requires
            self.wf(),
            self.tiles@.len() > 0 ==> self.num_rows >= 1 && self.num_cols >= 1,
            alignment_sum(
                self.scaffolding@,
                self.num_rows as int,
                self.num_cols as int,
                self.tiles@,
                self.tiles@.len() as int,
            ) <= usize::MAX,
        ensures
            sum == alignment_sum(
                self.scaffolding@,
                self.num_rows as int,
                self.num_cols as int,
                self.tiles@,
                self.tiles@.len() as int,
            ),
    {
        let mut sum: usize = 0;
        let mut k: usize = 0;
        let ghost total = alignment_sum(
            self.scaffolding@,
            self.num_rows as int,
            self.num_cols as int,
            self.tiles@,
            self.tiles@.len() as int,
        );
        proof {
            lemma_alignment_sum_nonnegative(
                self.scaffolding@,
                self.num_rows as int,
                self.num_cols as int,
                self.tiles@,
                self.tiles@.len() as int,
            );
        }
        while k < self.tiles.len()
            invariant
                k <= self.tiles.len(),
                self.wf(),
                self.tiles@.len() > 0 ==> self.num_rows >= 1 && self.num_cols >= 1,
                total <= usize::MAX,
                sum == alignment_sum(
                    self.scaffolding@,
                    self.num_rows as int,
                    self.num_cols as int,
                    self.tiles@,
                    k as int,
                ),
                alignment_sum(
                    self.scaffolding@,
                    self.num_rows as int,
                    self.num_cols as int,
                    self.tiles@,
                    k as int,
                ) <= total,
                total == alignment_sum(
                    self.scaffolding@,
                    self.num_rows as int,
                    self.num_cols as int,
                    self.tiles@,
                    self.tiles@.len() as int,
                ),
            decreases self.tiles.len() - k,
        {
            let (x, y) = self.tiles[k];
            proof {
                lemma_alignment_sum_rises(
                    self.scaffolding@,
                    self.num_rows as int,
                    self.num_cols as int,
                    self.tiles@,
                    k + 1,
                    self.tiles@.len() as int,
                );
                lemma_alignment_sum_nonnegative(
                    self.scaffolding@,
                    self.num_rows as int,
                    self.num_cols as int,
                    self.tiles@,
                    k as int,
                );
            }
            if self.is_intersection(x, y) {
                sum = sum + x * y;
            }
            k += 1;
        }
        sum
    }
}

/// A sum of alignments over fewer tiles is no larger than one over more.
pub proof fn lemma_alignment_sum_rises(
    scaffolding: Set<u128>,
    num_rows: int,
    num_cols: int,
    tiles: Seq<(usize, usize)>,
    fewer: int,
    upto: int,
)
    requires
        fewer <= upto,
    ensures
        alignment_sum(scaffolding, num_rows, num_cols, tiles, fewer) <= alignment_sum(
            scaffolding,
            num_rows,
            num_cols,
            tiles,
            upto,
        ),
    decreases upto - fewer,
{
    if fewer < upto {
        lemma_alignment_sum_rises(scaffolding, num_rows, num_cols, tiles, fewer, upto - 1);
        lemma_alignment_sum_nonnegative(scaffolding, num_rows, num_cols, tiles, upto - 1);
        if upto > 0 {
            let (x, y) = tiles[upto - 1];
            assert(0 <= x * y) by (nonlinear_arith)
                requires
                    0 <= x,
                    0 <= y,
            ;
        }
    }
}

/// Where a robot stands and how it faces.
pub struct Walker {
    pub pos: (isize, isize),
    pub dir: AbsDirection,
}

/// The way along the scaffold as the robot finds it, provided that it takes
/// at most `fuel` steps and turns: straight ahead as long as there is
/// scaffold ahead; then to the left if there is scaffold, else to the right
/// if there is scaffold, else the way ends. Each stretch is written as its
/// number of steps, each turn as `L` or `R`; `steps` is the length of the
/// stretch so far. `None` where the way is longer, a stretch is too long to
/// count, or a tile looked at has no coordinates.
pub open spec fn walk_for(scaffolding: Set<u128>, w: Walker, steps: int, fuel: nat) -> Option<
    Seq<Seq<char>>,
>
    decreases fuel,
{
    let ahead = tile_toward(w.pos, w.dir);
    if !is_tile(ahead) {
        None
    } else if on_scaffold(scaffolding, ahead) {
        if fuel == 0 || steps >= i32::MAX {
            None
        } else {
            walk_for(
                scaffolding,
                Walker { pos: (ahead.0 as isize, ahead.1 as isize), ..w },
                steps + 1,
                (fuel - 1) as nat,
            )
        }
    } else {
        let said = if steps != 0 {
            seq![number_text(steps)]
        } else {
            Seq::empty()
        };
        let left = tile_toward(w.pos, left_of(w.dir));
        let right = tile_toward(w.pos, right_of(w.dir));
        if !is_tile(left) {
            None
        } else if on_scaffold(scaffolding, left) {
            if fuel == 0 {
                None
            } else {
                match walk_for(
                    scaffolding,
                    Walker { dir: left_of(w.dir), ..w },
                    0,
                    (fuel - 1) as nat,
                ) {
                    Some(rest) => Some(said + seq![seq!['L']] + rest),
                    None => None,
                }
            }
        } else if !is_tile(right) {
            None
        } else if on_scaffold(scaffolding, right) {
            if fuel == 0 {
                None
            } else {
                match walk_for(
                    scaffolding,
                    Walker { dir: right_of(w.dir), ..w },
                    0,
                    (fuel - 1) as nat,
                ) {
                    Some(rest) => Some(said + seq![seq!['R']] + rest),
                    None => None,
                }
            }
        } else {
            Some(said)
        }
    }
}

/// The way along the scaffold comes to an end.
pub open spec fn walk_ends(scaffolding: Set<u128>, w: Walker) -> bool {
    exists|fuel: nat| (#[trigger] walk_for(scaffolding, w, 0, fuel)) is Some
}

/// The way along the scaffold as the robot finds it.
pub open spec fn walk(scaffolding: Set<u128>, w: Walker) -> Seq<Seq<char>>
    recommends
        walk_ends(scaffolding, w),
{
    walk_for(
        scaffolding,
        w,
        0,
        choose|fuel: nat| (#[trigger] walk_for(scaffolding, w, 0, fuel)) is Some,
    ).unwrap()
}

/// More fuel than needed changes no way.
pub proof fn lemma_walk_more_fuel(
    scaffolding: Set<u128>,
    w: Walker,
    steps: int,
    enough: nat,
    more: nat,
)
    requires
        walk_for(scaffolding, w, steps, enough) is Some,
        enough <= more,
    ensures
        walk_for(scaffolding, w, steps, more) == walk_for(scaffolding, w, steps, enough),
    decreases enough,
{
    let ahead = tile_toward(w.pos, w.dir);
    let left = tile_toward(w.pos, left_of(w.dir));
    let right = tile_toward(w.pos, right_of(w.dir));
    if on_scaffold(scaffolding, ahead) {
        lemma_walk_more_fuel(
            scaffolding,
            Walker { pos: (ahead.0 as isize, ahead.1 as isize), ..w },
            steps + 1,
            (enough - 1) as nat,
            (more - 1) as nat,
        );
    } else if on_scaffold(scaffolding, left) {
        lemma_walk_more_fuel(
            scaffolding,
            Walker { dir: left_of(w.dir), ..w },
            0,
            (enough - 1) as nat,
            (more - 1) as nat,
        );
    } else if on_scaffold(scaffolding, right) {
        lemma_walk_more_fuel(
            scaffolding,
            Walker { dir: right_of(w.dir), ..w },
            0,
            (enough - 1) as nat,
            (more - 1) as nat,
        );
    }
}

/// Whatever fuel suffices, the way is the same.
pub proof fn lemma_walk_is_unique(scaffolding: Set<u128>, w: Walker, fuel: nat)
    requires
        walk_for(scaffolding, w, 0, fuel) is Some,
    ensures
        walk_ends(scaffolding, w),
        walk_for(scaffolding, w, 0, fuel) == Some(walk(scaffolding, w)),
{
    let chosen = choose|f: nat| (#[trigger] walk_for(scaffolding, w, 0, f)) is Some;
    if chosen <= fuel {
        lemma_walk_more_fuel(scaffolding, w, 0, chosen, fuel);
    } else {
        lemma_walk_more_fuel(scaffolding, w, 0, fuel, chosen);
    }
}

impl Robot<'_> {
    /// Where the robot stands and how it faces.
    pub open spec fn walker(&self) -> Walker {
        Walker { pos: self.current_position, dir: self.current_direction }
    }
}

/// Lets the robot follow the scaffold to its end, and returns the way it
/// went: the length of each stretch and the turns between them.
pub fn trace_path(robot: &mut Robot) -> (path: Vec<String>)
    requires
        walk_ends(old(robot).scaffolding@, old(robot).walker()),
    ensures
        texts_of(path@) == walk(old(robot).scaffolding@, old(robot).walker()),
        final(robot).scaffolding == old(robot).scaffolding,
{
    let ghost set = robot.scaffolding@;
    let ghost start = robot.walker();
    let ghost mut fuel: nat = choose|f: nat| (#[trigger] walk_for(set, start, 0, f)) is Some;
    let ghost whole = walk_for(set, start, 0, fuel).unwrap();
    let mut path: Vec<String> = Vec::new();
    let mut steps: i32 = 0;
    proof {
        assert(texts_of(path@) =~= Seq::empty());
        assert(Seq::<Seq<char>>::empty() + whole =~= whole);
    }
    loop
        invariant_except_break
            robot.scaffolding@ == set,
            robot.scaffolding == old(robot).scaffolding,
            0 <= steps,
            walk_for(set, robot.walker(), steps as int, fuel) is Some,
            texts_of(path@) + walk_for(set, robot.walker(), steps as int, fuel).unwrap() == whole,
        ensures
            texts_of(path@) == whole,
            robot.scaffolding == old(robot).scaffolding,
        decreases fuel,
    {
        let ghost before = texts_of(path@);
        let ghost rest = walk_for(set, robot.walker(), steps as int, fuel).unwrap();
        if robot.is_valid_move(robot.tile_ahead()) {
            robot.step();
            steps += 1;
            proof {
                fuel = (fuel - 1) as nat;
            }
        } else {
            if steps != 0 {
                let mut text: Vec<char> = Vec::new();
                push_number(&mut text, steps as i64, 0);
                path.push(string_of(&text));
                proof {
                    assert(text@ =~= number_text(steps as int));
                    assert(texts_of(path@) =~= before.push(number_text(steps as int)));
                }
            }
            let ghost said = texts_of(path@);
            if robot.is_valid_move(robot.tile_left()) {
                robot.turn_left();
                let mut text: Vec<char> = Vec::new();
                text.push('L');
                path.push(string_of(&text));
                steps = 0;
                proof {
                    fuel = (fuel - 1) as nat;
                    assert(text@ =~= seq!['L']);
                    assert(texts_of(path@) =~= said.push(seq!['L']));
                    let after = walk_for(set, robot.walker(), 0, fuel).unwrap();
                    assert(texts_of(path@) + after =~= whole);
                }
            } else if robot.is_valid_move(robot.tile_right()) {
                robot.turn_right();
                let mut text: Vec<char> = Vec::new();
                text.push('R');
                path.push(string_of(&text));
                steps = 0;
                proof {
                    fuel = (fuel - 1) as nat;
                    assert(text@ =~= seq!['R']);
                    assert(texts_of(path@) =~= said.push(seq!['R']));
                    let after = walk_for(set, robot.walker(), 0, fuel).unwrap();
                    assert(texts_of(path@) + after =~= whole);
                }
            } else {
                proof {
                    assert(texts_of(path@) =~= whole);
                }
                break ;
            }
        }
    }
    proof {
        lemma_walk_is_unique(set, start, choose|f: nat| (#[trigger] walk_for(set, start, 0, f)) is Some);
    }
    path
}

/// The marks of some rows and one more row are the marks of those rows and
/// then the marks of that row.
pub proof fn lemma_marks_push(done: Seq<Seq<i64>>, row: Seq<i64>, code: i64)
    ensures
        marks(done.push(row), code, (done.len() + 1) as int) == marks(done, code, done.len() as int)
            + row_marks(row, done.len() as int, code, row.len() as int),
{
    let longer = done.push(row);
    lemma_marks_same(done, longer, code, done.len() as int);
}

/// The marks in the first rows do not depend on the rows behind them.
pub proof fn lemma_marks_same(a: Seq<Seq<i64>>, b: Seq<Seq<i64>>, code: i64, upto: int)
    requires
        0 <= upto <= a.len(),
        upto <= b.len(),
        forall|k: int| 0 <= k < upto ==> a[k] == b[k],
    ensures
        marks(a, code, upto) == marks(b, code, upto),
    decreases upto,
{
    if upto > 0 {
        lemma_marks_same(a, b, code, upto - 1);
    }
}

/// The marks in the first cells of a row do not depend on the cells behind
/// them.
pub proof fn lemma_row_marks_prefix(
    whole: Seq<i64>,
    part: Seq<i64>,
    y: int,
    code: i64,
    upto: int,
)
    requires
        0 <= upto <= part.len(),
        upto <= whole.len(),
        forall|k: int| 0 <= k < upto ==> whole[k] == part[k],
    ensures
        row_marks(whole, y, code, upto) == row_marks(part, y, code, upto),
    decreases upto,
{
    if upto > 0 {
        lemma_row_marks_prefix(whole, part, y, code, upto - 1);
    }
}

} // verus!
