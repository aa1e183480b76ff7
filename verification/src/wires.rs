//! Two wires laid out on a grid: the trail of each, where they cross, and
//! which crossing is nearest.

use std::collections::HashSet;
use vstd::prelude::*;
use crate::text::{
    bounds_within, chars_of, is_unsigned, parse_unsigned, pieces, split, split_bounds,
    unsigned_value,
};

verus! {

broadcast use vstd::std_specs::hash::group_hash_axioms;

/// The number under which the point `(x, y)` is kept in a set.
pub open spec fn key_of(x: int, y: int) -> int {
    x * 4294967296 + (y + 2147483648)
}

/// Two points with the same key are the same point.
pub proof fn lemma_key_injective(x1: i32, y1: i32, x2: i32, y2: i32)
    requires
        key_of(x1 as int, y1 as int) == key_of(x2 as int, y2 as int),
    ensures
        x1 == x2,
        y1 == y2,
{
}

/// Computes the key of a point.
pub fn point_key(x: i32, y: i32) -> (key: i64)
    ensures
        key == key_of(x as int, y as int),
{
    (x as i64) * 4294967296 + ((y as i64) + 2147483648)
}

/// One of the four letters that name a direction.
pub open spec fn is_direction(dir: char) -> bool {
    dir == 'L' || dir == 'R' || dir == 'U' || dir == 'D'
}

/// The point `n` steps away from `p` in direction `dir`.
pub open spec fn shifted(p: (int, int), dir: char, n: int) -> (int, int) {
    if dir == 'L' {
        (p.0 - n, p.1)
    } else if dir == 'R' {
        (p.0 + n, p.1)
    } else if dir == 'U' {
        (p.0, p.1 + n)
    } else if dir == 'D' {
        (p.0, p.1 - n)
    } else {
        p
    }
}

/// The trail of a wire: each point it passes with the number of steps taken
/// to get there, the point where it ends, and the steps taken in all.
pub struct Trail {
    pub points: Seq<(int, int, int)>,
    pub head: (int, int),
    pub steps: int,
}

impl Trail {
    /// The steps that the wire has taken when it first passes `(x, y)`.
    pub open spec fn delay_to(self, x: int, y: int) -> int
        recommends
            self.visits(x, y),
    {
        self.points[first_visit(self.points, x, y)].2
    }

    /// The trail of a wire that has not left the origin.
    pub open spec fn origin() -> Trail {
        Trail { points: Seq::empty(), head: (0, 0), steps: 0 }
    }

    /// The points passed when going `amt` steps from the head in direction
    /// `dir`, each with its step count.
    pub open spec fn stretch(self, dir: char, amt: int) -> Seq<(int, int, int)> {
        Seq::new(
            if amt > 0 {
                amt as nat
            } else {
                0
            },
            |j: int|
                {
                    let p = shifted(self.head, dir, j + 1);
                    (p.0, p.1, self.steps + j + 1)
                },
        )
    }

    /// The trail after `amt` more steps in direction `dir`. A letter that
    /// names no direction leaves the trail as it is.
    pub open spec fn extend(self, dir: char, amt: int) -> Trail {
        if is_direction(dir) {
            Trail {
                points: self.points + self.stretch(dir, amt),
                head: shifted(self.head, dir, amt),
                steps: if amt > 0 {
                    self.steps + amt
                } else {
                    self.steps
                },
            }
        } else {
            self
        }
    }

    /// Going `amt` steps in direction `dir` stays within what the grid can
    /// hold.
    pub open spec fn fits(self, dir: char, amt: int) -> bool {
        is_direction(dir) ==> {
            &&& i32::MIN <= shifted(self.head, dir, amt).0 <= i32::MAX
            &&& i32::MIN <= shifted(self.head, dir, amt).1 <= i32::MAX
            &&& self.steps + amt <= i32::MAX
        }
    }

    /// The trail passes the point `(x, y)`.
    pub open spec fn visits(self, x: int, y: int) -> bool {
        exists|i: int|
            0 <= i < self.points.len() && (#[trigger] self.points[i]).0 == x && self.points[i].1
                == y
    }
}

/// A trail that got one more point passes what it passed before, and that
/// point.
pub proof fn lemma_visits_push(t: Trail, entry: (int, int, int), x: int, y: int)
    ensures
        (Trail { points: t.points.push(entry), ..t }).visits(x, y) <==> (t.visits(x, y) || (
        entry.0 == x && entry.1 == y)),
{
    let longer = Trail { points: t.points.push(entry), ..t };
    if t.visits(x, y) {
        let i = choose|i: int|
            0 <= i < t.points.len() && (#[trigger] t.points[i]).0 == x && t.points[i].1 == y;
        assert(longer.points[i] == t.points[i]);
    }
    if entry.0 == x && entry.1 == y {
        assert(longer.points[t.points.len() as int] == entry);
    }
    if longer.visits(x, y) {
        let i = choose|i: int|
            0 <= i < longer.points.len() && (#[trigger] longer.points[i]).0 == x
                && longer.points[i].1 == y;
        if i < t.points.len() {
            assert(t.points[i] == longer.points[i]);
        }
    }
}

/// The position in `points` of the first entry at `(x, y)`, or the length of
/// `points` where none is there.
pub open spec fn first_visit(points: Seq<(int, int, int)>, x: int, y: int) -> int
    decreases points.len(),
{
    if points.len() == 0 || (points[0].0 == x && points[0].1 == y) {
        0
    } else {
        1 + first_visit(points.drop_first(), x, y)
    }
}

/// `first_visit` finds `i` where no entry before `i` is at `(x, y)` and the
/// entry at `i` is.
pub proof fn lemma_first_visit(points: Seq<(int, int, int)>, x: int, y: int, i: int)
    requires
        0 <= i < points.len(),
        forall|k: int| 0 <= k < i ==> !((#[trigger] points[k]).0 == x && points[k].1 == y),
        points[i].0 == x && points[i].1 == y,
    ensures
        first_visit(points, x, y) == i,
    decreases i,
{
    if i > 0 {
        assert(!(points[0].0 == x && points[0].1 == y));
        let rest = points.drop_first();
        assert forall|k: int| 0 <= k < i - 1 implies !((#[trigger] rest[k]).0 == x && rest[k].1
            == y) by {
            assert(rest[k] == points[k + 1]);
        }
        lemma_first_visit(rest, x, y, i - 1);
    }
}

/// A piece of a path description: a one-byte letter, then an unsigned number
/// that a step count can hold.
pub open spec fn is_move(piece: Seq<char>) -> bool {
    &&& piece.len() >= 1
    &&& (piece[0] as u32) < 128
    &&& is_unsigned(piece.skip(1))
    &&& unsigned_value(piece.skip(1)) <= i32::MAX
}

/// The trail `t` continued by the moves that `moves` describes, in order.
pub open spec fn follow(t: Trail, moves: Seq<Seq<char>>) -> Trail
    decreases moves.len(),
{
    if moves.len() == 0 {
        t
    } else {
        let last = moves.last();
        follow(t, moves.drop_last()).extend(last[0], unsigned_value(last.skip(1)))
    }
}

/// Every piece of `moves` is a move, and the trail `t` can be continued by
/// one after the other within what the grid can hold.
pub open spec fn can_follow(t: Trail, moves: Seq<Seq<char>>) -> bool
    decreases moves.len(),
{
    moves.len() == 0 || {
        let last = moves.last();
        &&& can_follow(t, moves.drop_last())
        &&& is_move(last)
        &&& follow(t, moves.drop_last()).fits(last[0], unsigned_value(last.skip(1)))
    }
}

/// The point `(x, y)` is among `points`.
pub open spec fn listed(points: Seq<(i32, i32)>, x: int, y: int) -> bool {
    exists|i: int| 0 <= i < points.len() && (#[trigger] points[i]).0 == x && points[i].1 == y
}

/// No point is listed twice.
pub open spec fn distinct(points: Seq<(i32, i32)>) -> bool {
    forall|i: int, j: int| 0 <= i < j < points.len() ==> points[i] != points[j]
}

/// The distance of a point from the origin, going along the grid.
pub open spec fn manhattan(p: (i32, i32)) -> int {
    (if p.0 < 0 {
        -p.0
    } else {
        p.0 as int
    }) + (if p.1 < 0 {
        -p.1
    } else {
        p.1 as int
    })
}

/// A wire on the grid.
pub struct Grid {
    /// The keys of the points that the wire passes.
    pub points: HashSet<i64>,
    /// The points that the wire passes, in order, each with its step count.
    pub pt_queue: Vec<(i32, i32, i32)>,
    pub head: (i32, i32),
    pub steps: i32,
}

impl View for Grid {
    type V = Trail;

    open spec fn view(&self) -> Trail {
        Trail {
            points: Seq::new(
                self.pt_queue@.len(),
                |i: int|
                    (self.pt_queue@[i].0 as int, self.pt_queue@[i].1 as int, self.pt_queue@[i].2 as int),
            ),
            head: (self.head.0 as int, self.head.1 as int),
            steps: self.steps as int,
        }
    }
}

/// Moves `p` by `n` steps in direction `dir`.
fn shift(p: (i32, i32), dir: char, n: i32) -> (q: (i32, i32))
    requires
        i32::MIN <= shifted((p.0 as int, p.1 as int), dir, n as int).0 <= i32::MAX,
        i32::MIN <= shifted((p.0 as int, p.1 as int), dir, n as int).1 <= i32::MAX,
    ensures
        (q.0 as int, q.1 as int) == shifted((p.0 as int, p.1 as int), dir, n as int),
{
    if dir == 'L' {
        (p.0 - n, p.1)
    } else if dir == 'R' {
        (p.0 + n, p.1)
    } else if dir == 'U' {
        (p.0, p.1 + n)
    } else if dir == 'D' {
        (p.0, p.1 - n)
    } else {
        p
    }
}

impl Grid {
    /// The set of keys holds the points of the trail, and no others.
    pub open spec fn wf(&self) -> bool {
        forall|x: i32, y: i32|
            self.points@.contains(#[trigger] key_of(x as int, y as int) as i64) <==> self@.visits(
                x as int,
                y as int,
            )
    }

    /// Lays out the wire that `raw_tokens` describes: moves separated by
    /// commas, each a direction letter and a number of steps.
    pub fn new(raw_tokens: &str) -> (g: Grid)
        requires
            can_follow(Trail::origin(), split(raw_tokens@, ',')),
        ensures
            g.wf(),
            g@ == follow(Trail::origin(), split(raw_tokens@, ',')),
    {
        let chars = chars_of(raw_tokens);
        let bounds = split_bounds(&chars, 0, chars.len(), ',');
        let ghost moves = split(raw_tokens@, ',');
        let mut g = Grid { points: HashSet::new(), pt_queue: Vec::new(), head: (0, 0), steps: 0 };
        proof {
            assert(chars@.subrange(0, chars@.len() as int) =~= chars@);
            assert(g@.points =~= Seq::empty());
            assert(moves.take(0) =~= Seq::empty());
            assert(moves.take(moves.len() as int) =~= moves);
        }
        let mut k: usize = 0;
        while k < bounds.len()
            invariant
                k <= bounds.len(),
                chars@ == raw_tokens@,
                moves == split(raw_tokens@, ','),
                pieces(chars@, bounds@) == moves,
                bounds_within(bounds@, 0, chars.len() as int),
                can_follow(Trail::origin(), moves.take(moves.len() as int)),
                g.wf(),
                g@ == follow(Trail::origin(), moves.take(k as int)),
            decreases bounds.len() - k,
        {
            let (from, to) = bounds[k];
            proof {
                assert(moves.take(k + 1).drop_last() =~= moves.take(k as int));
                assert(moves.take(k + 1).last() == moves[k as int]);
                assert(moves[k as int] == chars@.subrange(from as int, to as int));
                lemma_can_follow_prefix(Trail::origin(), moves.take(moves.len() as int), k + 1);
                assert(moves.take(moves.len() as int).take(k + 1) =~= moves.take(k + 1));
                assert(can_follow(Trail::origin(), moves.take(k + 1)));
                assert(is_move(moves[k as int]));
                assert(moves[k as int].skip(1) =~= chars@.subrange(from + 1, to as int));
                assert(moves[k as int][0] == chars@[from as int]);
                assert(g@.fits(chars@[from as int], unsigned_value(moves[k as int].skip(1))));
            }
            let dir = chars[from];
            match parse_unsigned(&chars, from + 1, to, 2147483647) {
                Some(amt) => {
                    Grid::add_points(&mut g, dir, amt as i32);
                },
                None => {
                    assert(false);
                },
            }
            k += 1;
        }
        proof {
            assert(moves.take(k as int) =~= moves);
        }
        g
    }

    /// Lays `amt` more steps of wire from the head in direction `dir`.
    pub fn add_points(g: &mut Grid, dir: char, amt: i32)
        requires
            old(g).wf(),
            old(g)@.fits(dir, amt as int),
        ensures
            final(g).wf(),
            final(g)@ == old(g)@.extend(dir, amt as int),
    {
        if !(dir == 'L' || dir == 'R' || dir == 'U' || dir == 'D') {
            return ;
        }
        let ghost start = g@;
        let mut i: i32 = 0;
        while i < amt
            invariant
                is_direction(dir),
                start.fits(dir, amt as int),
                0 <= i,
                i <= amt || i == 0,
                g.wf(),
                g.head == old(g).head,
                start.head == (g.head.0 as int, g.head.1 as int),
                g.steps == start.steps + i,
                g@.points == start.points + start.stretch(dir, amt as int).take(i as int),
            decreases amt - i,
        {
            i += 1;
            g.steps += 1;
            let ghost before = *g;
            let p = shift(g.head, dir, i);
            g.points.insert(point_key(p.0, p.1));
            g.pt_queue.push((p.0, p.1, g.steps));
            proof {
                let entry = (p.0 as int, p.1 as int, g.steps as int);
                assert(g@.points =~= before@.points.push(entry));
                assert(start.stretch(dir, amt as int).take(i as int) =~= start.stretch(
                    dir,
                    amt as int,
                ).take(i - 1).push(entry));
                assert(g@.points =~= start.points + start.stretch(dir, amt as int).take(
                    i as int,
                ));
                assert forall|x: i32, y: i32|
                    g.points@.contains(#[trigger] key_of(x as int, y as int) as i64)
                        <==> g@.visits(x as int, y as int) by {
                    lemma_visits_push(before@, entry, x as int, y as int);
                    assert(g@ == Trail { points: before@.points.push(entry), ..before@ });
                    if key_of(x as int, y as int) == key_of(p.0 as int, p.1 as int) {
                        lemma_key_injective(x, y, p.0, p.1);
                    }
                }
            }
        }
        proof {
            let whole = start.stretch(dir, amt as int);
            assert(whole.take(whole.len() as int) =~= whole);
        }
        let ghost laid = *g;
        g.head = shift(g.head, dir, amt);
        proof {
            assert forall|x: i32, y: i32|
                g.points@.contains(#[trigger] key_of(x as int, y as int) as i64) <==> g@.visits(
                    x as int,
                    y as int,
                ) by {
                assert(g@.points == laid@.points);
                assert(g@.visits(x as int, y as int) == laid@.visits(x as int, y as int));
            }
        }
    }
}

/// Where a sequence of moves can be followed, so can each of its beginnings.
pub proof fn lemma_can_follow_prefix(t: Trail, moves: Seq<Seq<char>>, n: int)
    requires
        can_follow(t, moves),
        0 <= n <= moves.len(),
    ensures
        can_follow(t, moves.take(n)),
    decreases moves.len(),
{
    if n < moves.len() {
        lemma_can_follow_prefix(t, moves.drop_last(), n);
        assert(moves.drop_last().take(n) =~= moves.take(n));
    } else {
        assert(moves.take(n) =~= moves);
    }
}

impl Grid {
    /// The points that both wires pass, each listed once.
    pub fn get_overlap(&self, g2: &Grid) -> (overlap: Vec<(i32, i32)>)
        requires
            self.wf(),
            g2.wf(),
        ensures
            distinct(overlap@),
            forall|x: i32, y: i32|
                listed(overlap@, x as int, y as int) <==> (#[trigger] self@.visits(
                    x as int,
                    y as int,
                ) && g2@.visits(x as int, y as int)),
    {
        let mut overlap: Vec<(i32, i32)> = Vec::new();
        let mut seen: HashSet<i64> = HashSet::new();
        let mut i: usize = 0;
        while i < self.pt_queue.len()
            invariant
                i <= self.pt_queue.len(),
                self.wf(),
                g2.wf(),
                distinct(overlap@),
                forall|x: i32, y: i32|
                    seen@.contains(#[trigger] key_of(x as int, y as int) as i64) <==> listed(
                        overlap@,
                        x as int,
                        y as int,
                    ),
                forall|k: int|
                    0 <= k < overlap@.len() ==> self@.visits(
                        (#[trigger] overlap@[k]).0 as int,
                        overlap@[k].1 as int,
                    ) && g2@.visits(overlap@[k].0 as int, overlap@[k].1 as int),
                forall|j: int|
                    0 <= j < i && g2@.visits(
                        (#[trigger] self.pt_queue@[j]).0 as int,
                        self.pt_queue@[j].1 as int,
                    ) ==> listed(overlap@, self.pt_queue@[j].0 as int, self.pt_queue@[j].1 as int),
            decreases self.pt_queue.len() - i,
        {
            let p = self.pt_queue[i];
            let key = point_key(p.0, p.1);
            let ghost before = overlap@;
            proof {
                assert(self@.points[i as int].0 == p.0 && self@.points[i as int].1 == p.1);
                assert(self@.visits(p.0 as int, p.1 as int));
            }
            if g2.points.contains(&key) {
                if seen.insert(key) {
                    overlap.push((p.0, p.1));
                    proof {
                        assert(!listed(before, p.0 as int, p.1 as int));
                        assert(overlap@[before.len() as int] == (p.0, p.1));
                        assert forall|a: int, b: int| 0 <= a < b < overlap@.len() implies overlap@[a]
                            != overlap@[b] by {
                            if b == before.len() {
                                assert(before[a] == overlap@[a]);
                            } else {
                                assert(before[a] == overlap@[a] && before[b] == overlap@[b]);
                            }
                        }
                        assert forall|x: i32, y: i32|
                            seen@.contains(#[trigger] key_of(x as int, y as int) as i64)
                                <==> listed(overlap@, x as int, y as int) by {
                            lemma_listed_push(before, (p.0, p.1), x as int, y as int);
                            if key_of(x as int, y as int) == key_of(p.0 as int, p.1 as int) {
                                lemma_key_injective(x, y, p.0, p.1);
                            }
                        }
                        assert forall|j: int|
                            0 <= j < i + 1 && g2@.visits(
                                (#[trigger] self.pt_queue@[j]).0 as int,
                                self.pt_queue@[j].1 as int,
                            ) implies listed(
                            overlap@,
                            self.pt_queue@[j].0 as int,
                            self.pt_queue@[j].1 as int,
                        ) by {
                            lemma_listed_push(
                                before,
                                (p.0, p.1),
                                self.pt_queue@[j].0 as int,
                                self.pt_queue@[j].1 as int,
                            );
                        }
                    }
                }
            }
            i += 1;
        }
        proof {
            assert forall|x: i32, y: i32|
                listed(overlap@, x as int, y as int) <==> (#[trigger] self@.visits(
                    x as int,
                    y as int,
                ) && g2@.visits(x as int, y as int)) by {
                if listed(overlap@, x as int, y as int) {
                    let k = choose|k: int|
                        0 <= k < overlap@.len() && (#[trigger] overlap@[k]).0 == x && overlap@[k].1
                            == y;
                    assert(self@.visits(overlap@[k].0 as int, overlap@[k].1 as int));
                }
                if self@.visits(x as int, y as int) && g2@.visits(x as int, y as int) {
                    let j = choose|j: int|
                        0 <= j < self@.points.len() && (#[trigger] self@.points[j]).0 == x
                            && self@.points[j].1 == y;
                    assert(self.pt_queue@[j].0 == x && self.pt_queue@[j].1 == y);
                }
            }
        }
        overlap
    }

    /// The smallest distance from the origin among `points`.
    pub fn smallest_distance(points: &Vec<(i32, i32)>) -> (dist: i32)
        requires
            points.len() > 0,
            forall|i: int| 0 <= i < points.len() ==> manhattan(#[trigger] points[i]) <= i32::MAX,
        ensures
            exists|i: int| 0 <= i < points.len() && dist == manhattan(#[trigger] points[i]),
            forall|i: int| 0 <= i < points.len() ==> dist <= manhattan(#[trigger] points[i]),
    {
        let mut best: i32 = distance(points[0]);
        let mut i: usize = 1;
        while i < points.len()
            invariant
                1 <= i <= points.len(),
                forall|k: int|
                    0 <= k < points.len() ==> manhattan(#[trigger] points[k]) <= i32::MAX,
                exists|k: int| 0 <= k < i && best == manhattan(#[trigger] points[k]),
                forall|k: int| 0 <= k < i ==> best <= manhattan(#[trigger] points[k]),
            decreases points.len() - i,
        {
            let d = distance(points[i]);
            if d < best {
                best = d;
            }
            i += 1;
        }
        best
    }

    /// The smallest number of steps, both wires taken together, that it takes
    /// to reach one of `points`, each wire counted up to its first visit.
    pub fn smallest_delay(points: &Vec<(i32, i32)>, g1: &Grid, g2: &Grid) -> (delay: i32)
        requires
            points.len() > 0,
            forall|i: int|
                0 <= i < points.len() ==> {
                    let p = #[trigger] points[i];
                    &&& g1@.visits(p.0 as int, p.1 as int)
                    &&& g2@.visits(p.0 as int, p.1 as int)
                    &&& i32::MIN <= combined_delay(g1@, g2@, p) <= i32::MAX
                },
        ensures
            exists|i: int|
                0 <= i < points.len() && delay == combined_delay(g1@, g2@, #[trigger] points[i]),
            forall|i: int|
                0 <= i < points.len() ==> delay <= combined_delay(g1@, g2@, #[trigger] points[i]),
    {
        let mut best: i32 = first_delay(g1, points[0]) + first_delay(g2, points[0]);
        let mut i: usize = 1;
        while i < points.len()
            invariant
                1 <= i <= points.len(),
                forall|k: int|
                    0 <= k < points.len() ==> {
                        let p = #[trigger] points[k];
                        &&& g1@.visits(p.0 as int, p.1 as int)
                        &&& g2@.visits(p.0 as int, p.1 as int)
                        &&& i32::MIN <= combined_delay(g1@, g2@, p) <= i32::MAX
                    },
                exists|k: int|
                    0 <= k < i && best == combined_delay(g1@, g2@, #[trigger] points[k]),
                forall|k: int|
                    0 <= k < i ==> best <= combined_delay(g1@, g2@, #[trigger] points[k]),
            decreases points.len() - i,
        {
            let d = first_delay(g1, points[i]) + first_delay(g2, points[i]);
            if d < best {
                best = d;
            }
            i += 1;
        }
        best
    }
}

/// The steps that two wires take together to reach `p`.
pub open spec fn combined_delay(t1: Trail, t2: Trail, p: (i32, i32)) -> int {
    t1.delay_to(p.0 as int, p.1 as int) + t2.delay_to(p.0 as int, p.1 as int)
}

/// A list that got one more point lists what it listed before, and that
/// point.
pub proof fn lemma_listed_push(points: Seq<(i32, i32)>, p: (i32, i32), x: int, y: int)
    ensures
        listed(points.push(p), x, y) <==> (listed(points, x, y) || (p.0 == x && p.1 == y)),
{
    let longer = points.push(p);
    if listed(points, x, y) {
        let i = choose|i: int|
            0 <= i < points.len() && (#[trigger] points[i]).0 == x && points[i].1 == y;
        assert(longer[i] == points[i]);
    }
    if p.0 == x && p.1 == y {
        assert(longer[points.len() as int] == p);
    }
    if listed(longer, x, y) {
        let i = choose|i: int|
            0 <= i < longer.len() && (#[trigger] longer[i]).0 == x && longer[i].1 == y;
        if i < points.len() {
            assert(points[i] == longer[i]);
        }
    }
}

/// Computes the distance of a point from the origin.
fn distance(p: (i32, i32)) -> (d: i32)
    requires
        manhattan(p) <= i32::MAX,
    ensures
        d == manhattan(p),
{
    let dx: i32 = if p.0 < 0 {
        -p.0
    } else {
        p.0
    };
    let dy: i32 = if p.1 < 0 {
        -p.1
    } else {
        p.1
    };
    dx + dy
}

/// Looks up the steps that the wire has taken when it first passes `p`.
fn first_delay(g: &Grid, p: (i32, i32)) -> (delay: i32)
    requires
        g@.visits(p.0 as int, p.1 as int),
    ensures
        delay == g@.delay_to(p.0 as int, p.1 as int),
{
    let mut i: usize = 0;
    while i < g.pt_queue.len()
        invariant
            i <= g.pt_queue.len(),
            g@.visits(p.0 as int, p.1 as int),
            forall|k: int|
                0 <= k < i ==> !((#[trigger] g@.points[k]).0 == p.0 && g@.points[k].1 == p.1),
        decreases g.pt_queue.len() - i,
    {
        let entry = g.pt_queue[i];
        if entry.0 == p.0 && entry.1 == p.1 {
            proof {
                assert(g@.points[i as int] == (entry.0 as int, entry.1 as int, entry.2 as int));
                lemma_first_visit(g@.points, p.0 as int, p.1 as int, i as int);
            }
            return entry.2;
        }
        proof {
            assert(g@.points[i as int] == (entry.0 as int, entry.1 as int, entry.2 as int));
        }
        i += 1;
    }
    proof {
        let k = choose|k: int|
            0 <= k < g@.points.len() && (#[trigger] g@.points[k]).0 == p.0 && g@.points[k].1
                == p.1;
        assert(false);
    }
    vstd::pervasive::unreached()
}

} // verus!
