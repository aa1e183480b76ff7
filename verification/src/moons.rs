//! Moons that pull on each other: positions, velocities, gravity and energy.

use num_integer::Integer;
use vstd::arithmetic::div_mod::{
    lemma_fundamental_div_mod, lemma_mod_multiples_basic, lemma_small_mod, lemma_sub_mod_noop,
};
use vstd::prelude::*;
use crate::text::{
    chars_of, is_signed, padded, parse_signed, number_text, pieces, push_number, push_text,
    signed_value, split, split_bounds, string_of, strip_end, strip_end_bound, strip_start,
    strip_start_bound,
};

verus! {

/// A point or a velocity in space.
#[derive(Debug, PartialEq, Eq, Structural, Clone, Copy, Hash)]
pub struct Vec3 {
    pub x: i64,
    pub y: i64,
    pub z: i64,
}

/// A moon.
#[derive(Debug, PartialEq, Eq, Structural, Clone, Copy, Hash)]
pub struct Body {
    pub position: Vec3,
    pub velocity: Vec3,
}

/// The absolute value of `v`.
pub open spec fn abs(v: int) -> int {
    if v < 0 {
        -v
    } else {
        v
    }
}

/// The change of velocity, along one axis, of a moon at `p1` under the pull
/// of a moon at `p2`: one towards the other, nothing where they are level.
pub open spec fn pull(p1: int, p2: int) -> int {
    if p1 < p2 {
        1
    } else if p1 > p2 {
        -1
    } else {
        0
    }
}

/// Three amounts, one for each axis.
pub struct Triple {
    pub x: int,
    pub y: int,
    pub z: int,
}

impl Triple {
    /// The sum of two triples, axis by axis.
    pub open spec fn plus(self, other: Triple) -> Triple {
        Triple { x: self.x + other.x, y: self.y + other.y, z: self.z + other.z }
    }

    /// Each amount is one that a coordinate can hold.
    pub open spec fn fits(self) -> bool {
        &&& i64::MIN <= self.x <= i64::MAX
        &&& i64::MIN <= self.y <= i64::MAX
        &&& i64::MIN <= self.z <= i64::MAX
    }
}

impl View for Vec3 {
    type V = Triple;

    open spec fn view(&self) -> Triple {
        Triple { x: self.x as int, y: self.y as int, z: self.z as int }
    }
}

/// The pull of a moon at `other` on a moon at `at`.
pub open spec fn pull_of(at: Vec3, other: Vec3) -> Triple {
    Triple {
        x: pull(at.x as int, other.x as int),
        y: pull(at.y as int, other.y as int),
        z: pull(at.z as int, other.z as int),
    }
}

/// The pull on moon `k` of all the moons before moon `upto`, itself left out.
pub open spec fn pulls(bodies: Seq<Body>, k: int, upto: int) -> Triple
    decreases upto,
{
    if upto <= 0 {
        Triple { x: 0, y: 0, z: 0 }
    } else if upto - 1 == k {
        pulls(bodies, k, upto - 1)
    } else {
        pulls(bodies, k, upto - 1).plus(pull_of(bodies[k].position, bodies[upto - 1].position))
    }
}

/// The velocity of moon `k` after one step: its velocity changed by the pull
/// of every other moon.
pub open spec fn next_velocity(bodies: Seq<Body>, k: int) -> Triple {
    bodies[k].velocity@.plus(pulls(bodies, k, bodies.len() as int))
}

/// The position of moon `k` after one step: its position changed by its new
/// velocity.
pub open spec fn next_position(bodies: Seq<Body>, k: int) -> Triple {
    bodies[k].position@.plus(next_velocity(bodies, k))
}

/// One step can be taken: every velocity has as much room as there are
/// moons, and every new position is one that a moon can have.
pub open spec fn can_update(bodies: Seq<Body>) -> bool {
    forall|k: int|
        0 <= k < bodies.len() ==> {
            let v = (#[trigger] bodies[k]).velocity;
            &&& i64::MIN + bodies.len() <= v.x <= i64::MAX - bodies.len()
            &&& i64::MIN + bodies.len() <= v.y <= i64::MAX - bodies.len()
            &&& i64::MIN + bodies.len() <= v.z <= i64::MAX - bodies.len()
            &&& next_position(bodies, k).fits()
        }
}

/// The vector that holds the three amounts.
pub open spec fn vec3_of(t: Triple) -> Vec3 {
    Vec3 { x: t.x as i64, y: t.y as i64, z: t.z as i64 }
}

/// The moons after one step.
pub open spec fn stepped(bodies: Seq<Body>) -> Seq<Body> {
    Seq::new(
        bodies.len(),
        |k: int|
            Body {
                position: vec3_of(next_position(bodies, k)),
                velocity: vec3_of(next_velocity(bodies, k)),
            },
    )
}

/// The moons after `n` steps.
pub open spec fn after(bodies: Seq<Body>, n: nat) -> Seq<Body>
    decreases n,
{
    if n == 0 {
        bodies
    } else {
        stepped(after(bodies, (n - 1) as nat))
    }
}

/// `n` steps can be taken, one after the other.
pub open spec fn can_simulate(bodies: Seq<Body>, n: nat) -> bool
    decreases n,
{
    n == 0 || (can_simulate(bodies, (n - 1) as nat) && can_update(after(bodies, (n - 1) as nat)))
}

/// The sum of the energies of the first `upto` moons.
pub open spec fn energy_sum(bodies: Seq<Body>, upto: int) -> int
    decreases upto,
{
    if upto <= 0 {
        0
    } else {
        energy_sum(bodies, upto - 1) + bodies[upto - 1].energy_spec()
    }
}

/// The energy of each moon and every sum of them can be held.
pub open spec fn energies_fit(bodies: Seq<Body>) -> bool {
    forall|k: int|
        0 <= k < bodies.len() ==> {
            &&& (#[trigger] bodies[k]).position.energy_spec() <= i64::MAX
            &&& bodies[k].velocity.energy_spec() <= i64::MAX
            &&& bodies[k].energy_spec() <= i64::MAX
            &&& energy_sum(bodies, k + 1) <= i64::MAX
        }
}

/// One of the three axes of space.
#[derive(Debug, PartialEq, Eq, Structural, Clone, Copy)]
pub enum Axis {
    X,
    Y,
    Z,
}

/// Where a moon is and how fast it goes, along one axis.
pub open spec fn on_axis(b: Body, axis: Axis) -> (i64, i64) {
    match axis {
        Axis::X => (b.position.x, b.velocity.x),
        Axis::Y => (b.position.y, b.velocity.y),
        Axis::Z => (b.position.z, b.velocity.z),
    }
}

/// As far as both lists reach, moon by moon, the moons are in the same place
/// and go equally fast along the axis.
pub open spec fn same_on_axis(a: Seq<Body>, b: Seq<Body>, axis: Axis) -> bool {
    forall|k: int| 0 <= k < a.len() && k < b.len() ==> on_axis(#[trigger] a[k], axis) == on_axis(
        b[k],
        axis,
    )
}

/// After `p` steps, and not before, the moons are back where they started
/// along the axis.
pub open spec fn is_period(bodies: Seq<Body>, axis: Axis, p: nat) -> bool {
    &&& p >= 1
    &&& same_on_axis(bodies, after(bodies, p), axis)
    &&& forall|i: nat| 1 <= i < p ==> !same_on_axis(bodies, #[trigger] after(bodies, i), axis)
}

/// `m` is a multiple of both `a` and `b`.
pub open spec fn is_common_multiple(m: int, a: int, b: int) -> bool {
    m % a == 0 && m % b == 0
}

/// `m` is the least positive number that is a multiple of both `a` and `b`.
pub open spec fn is_lcm(m: int, a: int, b: int) -> bool {
    &&& m > 0
    &&& is_common_multiple(m, a, b)
    &&& forall|k: int| 0 < k < m ==> !#[trigger] is_common_multiple(k, a, b)
}

/// `m` is a multiple of `a`, `b` and `c`.
pub open spec fn is_common_multiple3(m: int, a: int, b: int, c: int) -> bool {
    m % a == 0 && m % b == 0 && m % c == 0
}

/// `m` is the least positive number that is a multiple of `a`, `b` and `c`.
pub open spec fn is_lcm3(m: int, a: int, b: int, c: int) -> bool {
    &&& m > 0
    &&& is_common_multiple3(m, a, b, c)
    &&& forall|k: int| 0 < k < m ==> !#[trigger] is_common_multiple3(k, a, b, c)
}

/// A multiple of a multiple of `a` is a multiple of `a`.
pub proof fn lemma_multiple_of_multiple(q: int, l: int, a: int)
    requires
        a > 0,
        l % a == 0,
    ensures
        (q * l) % a == 0,
        (l * q) % a == 0,
{
    let t = l / a;
    lemma_fundamental_div_mod(l, a);
    assert(q * l == (q * t) * a && l * q == (q * t) * a) by (nonlinear_arith)
        requires
            l == a * t,
    ;
    lemma_mod_multiples_basic(q * t, a);
}

/// The least common multiple of two numbers divides each of their common
/// multiples.
pub proof fn lemma_lcm_divides(l: int, a: int, b: int, k: int)
    requires
        a > 0,
        b > 0,
        is_lcm(l, a, b),
        k >= 0,
        is_common_multiple(k, a, b),
    ensures
        k % l == 0,
{
    let q = k / l;
    let r = k % l;
    lemma_fundamental_div_mod(k, l);
    lemma_multiple_of_multiple(q, l, a);
    lemma_multiple_of_multiple(q, l, b);
    lemma_sub_mod_noop(k, l * q, a);
    lemma_sub_mod_noop(k, l * q, b);
    lemma_small_mod(0, a as nat);
    lemma_small_mod(0, b as nat);
    assert(r == k - l * q);
    assert(is_common_multiple(r, a, b));
}

/// Two periods of the same moons along the same axis are the same.
pub proof fn lemma_period_is_unique(bodies: Seq<Body>, axis: Axis, p: nat, q: nat)
    requires
        is_period(bodies, axis, p),
        is_period(bodies, axis, q),
    ensures
        p == q,
{
    if p < q {
        assert(!same_on_axis(bodies, after(bodies, p), axis));
    }
    if q < p {
        assert(!same_on_axis(bodies, after(bodies, q), axis));
    }
}

/// Where `n` steps can be taken, so can fewer.
pub proof fn lemma_can_simulate_fewer(bodies: Seq<Body>, n: nat, fewer: nat)
    requires
        can_simulate(bodies, n),
        fewer <= n,
    ensures
        can_simulate(bodies, fewer),
    decreases n,
{
    if fewer < n {
        lemma_can_simulate_fewer(bodies, (n - 1) as nat, fewer);
    }
}

/// No pull of the moons before `upto` exceeds their number.
pub proof fn lemma_pulls_bounded(bodies: Seq<Body>, k: int, upto: int)
    requires
        0 <= upto,
    ensures
        -upto <= pulls(bodies, k, upto).x <= upto,
        -upto <= pulls(bodies, k, upto).y <= upto,
        -upto <= pulls(bodies, k, upto).z <= upto,
    decreases upto,
{
    if upto > 0 {
        lemma_pulls_bounded(bodies, k, upto - 1);
    }
}

impl Vec3 {
    /// The sum of the absolute values of the three coordinates.
    pub open spec fn energy_spec(self) -> int {
        abs(self.x as int) + abs(self.y as int) + abs(self.z as int)
    }

    /// The sum of the absolute values of the three coordinates.
    pub fn energy(&self) -> (e: i64)
        requires
            self.energy_spec() <= i64::MAX,
        ensures
            e == self.energy_spec(),
    {
        magnitude(self.x) + magnitude(self.y) + magnitude(self.z)
    }
}

/// The absolute value of `v`.
fn magnitude(v: i64) -> (m: i64)
    requires
        v > i64::MIN,
    ensures
        m == abs(v as int),
{
    if v < 0 {
        -v
    } else {
        v
    }
}

/// The pull along one axis.
fn d_gravity(p1: i64, p2: i64) -> (d: i64)
    ensures
        d == pull(p1 as int, p2 as int),
{
    if p1 < p2 {
        return 1;
    }
    if p1 > p2 {
        return -1;
    }
    0
}

/// The text of a coordinate inside a field of the form `name=number`: what
/// stands between the first equals sign and the next, or the end.
pub open spec fn coordinate_text(field: Seq<char>) -> Seq<char> {
    split(field, '=')[1]
}

/// The field holds a coordinate: an equals sign, and behind it a signed
/// number that a coordinate can hold.
pub open spec fn is_coordinate(field: Seq<char>) -> bool {
    &&& split(field, '=').len() >= 2
    &&& is_signed(coordinate_text(field))
    &&& i64::MIN <= signed_value(coordinate_text(field)) <= i64::MAX
}

/// The fields of the description of a moon: what stands between the commas,
/// the angle brackets around the description set aside.
pub open spec fn fields_of(text: Seq<char>) -> Seq<Seq<char>> {
    split(strip_end(strip_start(text, '<'), '>'), ',')
}

/// The text describes a moon: it has at least three fields, and the first
/// three hold a coordinate each.
pub open spec fn is_body_text(text: Seq<char>) -> bool {
    &&& fields_of(text).len() >= 3
    &&& is_coordinate(fields_of(text)[0])
    &&& is_coordinate(fields_of(text)[1])
    &&& is_coordinate(fields_of(text)[2])
}

/// Reads the coordinate that the field `chars[from..to]` holds.
fn parse_coord(chars: &Vec<char>, from: usize, to: usize) -> (v: i64)
    requires
        from <= to <= chars.len(),
        is_coordinate(chars@.subrange(from as int, to as int)),
    ensures
        v == signed_value(coordinate_text(chars@.subrange(from as int, to as int))),
{
    let parts = split_bounds(chars, from, to, '=');
    let (start, end) = parts[1];
    assert(pieces(chars@, parts@)[1] == chars@.subrange(start as int, end as int));
    match parse_signed(chars, start, end) {
        Some(v) => v,
        None => vstd::pervasive::unreached(),
    }
}

impl Body {
    /// The moon as a line of text: the three coordinates of its position and
    /// the three of its velocity, each with its name and at least three wide.
    pub open spec fn text(self) -> Seq<char> {
        "px: "@ + padded(number_text(self.position.x as int), 3) + " py: "@ + padded(
            number_text(self.position.y as int),
            3,
        ) + " pz: "@ + padded(number_text(self.position.z as int), 3) + " | vx: "@ + padded(
            number_text(self.velocity.x as int),
            3,
        ) + " vy: "@ + padded(number_text(self.velocity.y as int), 3) + " vz: "@ + padded(
            number_text(self.velocity.z as int),
            3,
        )
    }

    /// The moon at rest at the position that `position` describes, as in
    /// `<x=-1, y=0, z=2>`.
    pub fn new(position: &str) -> (body: Body)
        requires
            is_body_text(position@),
        ensures
            body.position.x == signed_value(coordinate_text(fields_of(position@)[0])),
            body.position.y == signed_value(coordinate_text(fields_of(position@)[1])),
            body.position.z == signed_value(coordinate_text(fields_of(position@)[2])),
            body.velocity == (Vec3 { x: 0, y: 0, z: 0 }),
    {
        let chars = chars_of(position);
        let start = strip_start_bound(&chars, 0, chars.len(), '<');
        let end = strip_end_bound(&chars, start, chars.len(), '>');
        let fields = split_bounds(&chars, start, end, ',');
        proof {
            assert(chars@.subrange(0, chars@.len() as int) =~= chars@);
            assert(pieces(chars@, fields@) == fields_of(position@));
            assert(pieces(chars@, fields@)[0] == chars@.subrange(
                fields@[0].0 as int,
                fields@[0].1 as int,
            ));
            assert(pieces(chars@, fields@)[1] == chars@.subrange(
                fields@[1].0 as int,
                fields@[1].1 as int,
            ));
            assert(pieces(chars@, fields@)[2] == chars@.subrange(
                fields@[2].0 as int,
                fields@[2].1 as int,
            ));
        }
        let x = parse_coord(&chars, fields[0].0, fields[0].1);
        let y = parse_coord(&chars, fields[1].0, fields[1].1);
        let z = parse_coord(&chars, fields[2].0, fields[2].1);
        Body { position: Vec3 { x, y, z }, velocity: Vec3 { x: 0, y: 0, z: 0 } }
    }

    /// The moon as a line of text.
    pub fn to_string(&self) -> (s: String)
        ensures
            s@ == self.text(),
    {
        let mut out: Vec<char> = Vec::new();
        push_text(&mut out, "px: ");
        push_number(&mut out, self.position.x, 3);
        push_text(&mut out, " py: ");
        push_number(&mut out, self.position.y, 3);
        push_text(&mut out, " pz: ");
        push_number(&mut out, self.position.z, 3);
        push_text(&mut out, " | vx: ");
        push_number(&mut out, self.velocity.x, 3);
        push_text(&mut out, " vy: ");
        push_number(&mut out, self.velocity.y, 3);
        push_text(&mut out, " vz: ");
        push_number(&mut out, self.velocity.z, 3);
        assert(out@ =~= self.text());
        string_of(&out)
    }

    /// The energy of the moon: that of its position times that of its
    /// velocity.
    pub open spec fn energy_spec(self) -> int {
        self.position.energy_spec() * self.velocity.energy_spec()
    }

    /// Changes the velocity of this moon by the pull of `other`.
    pub fn interact(&mut self, other: &Body)
        requires
            old(self).velocity@.plus(pull_of(old(self).position, other.position)).fits(),
        ensures
            final(self).position == old(self).position,
            final(self).velocity@ == old(self).velocity@.plus(
                pull_of(old(self).position, other.position),
            ),
    {
        self.velocity.x += d_gravity(self.position.x, other.position.x);
        self.velocity.y += d_gravity(self.position.y, other.position.y);
        self.velocity.z += d_gravity(self.position.z, other.position.z);
    }

    /// Moves the moon by its velocity.
    pub fn update_position(&mut self)
        requires
            old(self).position@.plus(old(self).velocity@).fits(),
        ensures
            final(self).velocity == old(self).velocity,
            final(self).position@ == old(self).position@.plus(old(self).velocity@),
    {
        self.position.x += self.velocity.x;
        self.position.y += self.velocity.y;
        self.position.z += self.velocity.z;
    }

    /// The energy of the moon.
    pub fn energy(&self) -> (e: i64)
        requires
            self.position.energy_spec() <= i64::MAX,
            self.velocity.energy_spec() <= i64::MAX,
            self.energy_spec() <= i64::MAX,
        ensures
            e == self.energy_spec(),
    {
        self.position.energy() * self.velocity.energy()
    }
}

/// Takes one step: every moon pulls on every other, then every moon moves.
pub fn update_bodies(bodies: &mut Vec<Body>)
    requires
        can_update(old(bodies)@),
    ensures
        final(bodies)@.len() == old(bodies)@.len(),
        forall|k: int|
            0 <= k < old(bodies)@.len() ==> {
                &&& (#[trigger] final(bodies)@[k]).velocity@ == next_velocity(old(bodies)@, k)
                &&& final(bodies)@[k].position@ == next_position(old(bodies)@, k)
            },
        final(bodies)@ == stepped(old(bodies)@),
{
    let ghost start = bodies@;
    let n = bodies.len();
    let mut i: usize = 1;
    proof {
        reveal_with_fuel(pulls, 2);
        if n > 0 {
            assert(pulls(start, 0, 1) == Triple { x: 0, y: 0, z: 0 });
        }
    }
    while i < n
        invariant
            1 <= i,
            i <= n || i == 1,
            n == start.len(),
            bodies@.len() == n,
            can_update(start),
            forall|k: int| 0 <= k < n ==> (#[trigger] bodies@[k]).position == start[k].position,
            forall|k: int|
                0 <= k < n && k < i ==> (#[trigger] bodies@[k]).velocity@
                    == start[k].velocity@.plus(pulls(start, k, i as int)),
            forall|k: int| i <= k < n ==> (#[trigger] bodies@[k]).velocity == start[k].velocity,
        decreases n - i,
    {
        let mut j: usize = 0;
        while j < i
            invariant
                1 <= i < n,
                j <= i,
                n == start.len(),
                bodies@.len() == n,
                can_update(start),
                forall|k: int|
                    0 <= k < n ==> (#[trigger] bodies@[k]).position == start[k].position,
                bodies@[i as int].velocity@ == start[i as int].velocity@.plus(
                    pulls(start, i as int, j as int),
                ),
                forall|k: int|
                    0 <= k < j ==> (#[trigger] bodies@[k]).velocity@ == start[k].velocity@.plus(
                        pulls(start, k, i + 1),
                    ),
                forall|k: int|
                    j <= k < i ==> (#[trigger] bodies@[k]).velocity@ == start[k].velocity@.plus(
                        pulls(start, k, i as int),
                    ),
                forall|k: int| i < k < n ==> (#[trigger] bodies@[k]).velocity == start[k].velocity,
            decreases i - j,
        {
            let right = bodies[i];
            let left = bodies[j];
            proof {
                lemma_pulls_bounded(start, i as int, j as int);
                lemma_pulls_bounded(start, j as int, i as int);
                assert(start[i as int].position == right.position);
                assert(start[j as int].position == left.position);
            }
            let ghost before = bodies@;
            bodies[i].interact(&left);
            bodies[j].interact(&right);
            proof {
                assert forall|k: int| 0 <= k < n implies (#[trigger] bodies@[k]).position
                    == start[k].position by {
                    if k != i && k != j {
                        assert(bodies@[k] == before[k]);
                    }
                }
                assert forall|k: int| 0 <= k < j + 1 implies (#[trigger] bodies@[k]).velocity@
                    == start[k].velocity@.plus(pulls(start, k, i + 1)) by {
                    if k < j {
                        assert(bodies@[k] == before[k]);
                    }
                }
                assert forall|k: int| j + 1 <= k < i implies (#[trigger] bodies@[k]).velocity@
                    == start[k].velocity@.plus(pulls(start, k, i as int)) by {
                    assert(bodies@[k] == before[k]);
                }
                assert forall|k: int| i < k < n implies (#[trigger] bodies@[k]).velocity
                    == start[k].velocity by {
                    assert(bodies@[k] == before[k]);
                }
            }
            j += 1;
        }
        i += 1;
    }

    proof {
        assert forall|k: int| 0 <= k < n implies (#[trigger] bodies@[k]).velocity@
            == next_velocity(start, k) by {
            assert(i == n);
        }
    }
    let mut k: usize = 0;
    while k < n
        invariant
            k <= n,
            n == start.len(),
            bodies@.len() == n,
            can_update(start),
            forall|m: int|
                0 <= m < n ==> (#[trigger] bodies@[m]).velocity@ == next_velocity(start, m),
            forall|m: int|
                0 <= m < k ==> (#[trigger] bodies@[m]).position@ == next_position(start, m),
            forall|m: int| k <= m < n ==> (#[trigger] bodies@[m]).position == start[m].position,
        decreases n - k,
    {
        let ghost before = bodies@;
        assert(next_position(start, k as int).fits());
        bodies[k].update_position();
        proof {
            assert forall|m: int| 0 <= m < n implies (#[trigger] bodies@[m]).velocity@
                == next_velocity(start, m) by {
                if m != k {
                    assert(bodies@[m] == before[m]);
                }
            }
            assert forall|m: int| 0 <= m < k + 1 implies (#[trigger] bodies@[m]).position@
                == next_position(start, m) by {
                if m != k {
                    assert(bodies@[m] == before[m]);
                }
            }
            assert forall|m: int| k + 1 <= m < n implies (#[trigger] bodies@[m]).position
                == start[m].position by {
                assert(bodies@[m] == before[m]);
            }
        }
        k += 1;
    }    proof {
        assert forall|m: int| 0 <= m < n implies bodies@[m] == stepped(start)[m] by {
            assert(bodies@[m].velocity@ == next_velocity(start, m));
            assert(bodies@[m].position@ == next_position(start, m));
        }
        assert(bodies@ =~= stepped(start));
    }
}

/// Takes `steps` steps.
pub fn simulate(bodies: &mut Vec<Body>, steps: usize)
    requires
        can_simulate(old(bodies)@, steps as nat),
    ensures
        final(bodies)@ == after(old(bodies)@, steps as nat),
{
    let ghost start = bodies@;
    let mut i: usize = 0;
    while i < steps
        invariant
            i <= steps,
            can_simulate(start, steps as nat),
            bodies@ == after(start, i as nat),
        decreases steps - i,
    {
        proof {
            lemma_can_simulate_fewer(start, steps as nat, (i + 1) as nat);
        }
        update_bodies(bodies);
        i += 1;
    }
}

/// The sum of the energies of all moons.
pub fn total_energy(bodies: &Vec<Body>) -> (total: i64)
    requires
        energies_fit(bodies@),
    ensures
        total == energy_sum(bodies@, bodies@.len() as int),
{
    let mut total: i64 = 0;
    let mut k: usize = 0;
    while k < bodies.len()
        invariant
            k <= bodies.len(),
            energies_fit(bodies@),
            0 <= total == energy_sum(bodies@, k as int),
        decreases bodies.len() - k,
    {
        assert(energy_sum(bodies@, k + 1) <= i64::MAX);
        assert(bodies@[k as int].energy_spec() >= 0) by {
            let b = bodies@[k as int];
            assert(0 <= b.position.energy_spec() * b.velocity.energy_spec()) by (nonlinear_arith)
                requires
                    0 <= b.position.energy_spec(),
                    0 <= b.velocity.energy_spec(),
            ;
        }
        total = total + bodies[k].energy();
        k += 1;
    }
    total
}

/// Tells whether, as far as both lists reach, the moons agree along the
/// axis.
fn agree(a: &Vec<Body>, b: &Vec<Body>, axis: Axis) -> (same: bool)
    ensures
        same == same_on_axis(a@, b@, axis),
{
    let mut k: usize = 0;
    while k < a.len() && k < b.len()
        invariant
            forall|j: int| 0 <= j < k ==> on_axis(#[trigger] a@[j], axis) == on_axis(b@[j], axis),
            k <= a.len(),
            k <= b.len(),
        decreases a.len() - k,
    {
        let same = match axis {
            Axis::X => a[k].position.x == b[k].position.x && a[k].velocity.x == b[k].velocity.x,
            Axis::Y => a[k].position.y == b[k].position.y && a[k].velocity.y == b[k].velocity.y,
            Axis::Z => a[k].position.z == b[k].position.z && a[k].velocity.z == b[k].velocity.z,
        };
        if !same {
            assert(on_axis(a@[k as int], axis) != on_axis(b@[k as int], axis));
            return false;
        }
        k += 1;
    }
    true
}

/// Steps the moons until, along each axis, they have been back where they
/// started, and returns after how many steps that first was, axis by axis.
pub fn periods(bodies: &mut Vec<Body>) -> (found: (u64, u64, u64))
    requires
        exists|px: nat, py: nat, pz: nat|
            {
                &&& #[trigger] is_period(old(bodies)@, Axis::X, px)
                &&& #[trigger] is_period(old(bodies)@, Axis::Y, py)
                &&& #[trigger] is_period(old(bodies)@, Axis::Z, pz)
                &&& px <= u64::MAX && py <= u64::MAX && pz <= u64::MAX
                &&& can_simulate(old(bodies)@, px) && can_simulate(old(bodies)@, py)
                    && can_simulate(old(bodies)@, pz)
            },
    ensures
        is_period(old(bodies)@, Axis::X, found.0 as nat),
        is_period(old(bodies)@, Axis::Y, found.1 as nat),
        is_period(old(bodies)@, Axis::Z, found.2 as nat),
        final(bodies)@ == after(old(bodies)@, largest(found.0, found.1, found.2) as nat),
{
    let ghost start = bodies@;
    let ghost (px, py, pz): (nat, nat, nat) = choose|px: nat, py: nat, pz: nat|
        {
            &&& #[trigger] is_period(start, Axis::X, px)
            &&& #[trigger] is_period(start, Axis::Y, py)
            &&& #[trigger] is_period(start, Axis::Z, pz)
            &&& px <= u64::MAX && py <= u64::MAX && pz <= u64::MAX
            &&& can_simulate(start, px) && can_simulate(start, py) && can_simulate(start, pz)
        };
    let ghost bound: nat = if px >= py && px >= pz {
        px
    } else if py >= pz {
        py
    } else {
        pz
    };
    let mut initial: Vec<Body> = Vec::new();
    let mut k: usize = 0;
    while k < bodies.len()
        invariant
            k <= bodies.len(),
            bodies@ == start,
            initial@ == start.take(k as int),
        decreases bodies.len() - k,
    {
        initial.push(bodies[k]);
        assert(initial@ =~= start.take(k + 1));
        k += 1;
    }
    assert(initial@ =~= start);

    let mut i: u64 = 0;
    let mut cycles: (u64, u64, u64) = (0, 0, 0);
    loop
        invariant
            start == old(bodies)@,
            initial@ == start,
            is_period(start, Axis::X, px),
            is_period(start, Axis::Y, py),
            is_period(start, Axis::Z, pz),
            bound <= u64::MAX,
            px <= bound && py <= bound && pz <= bound,
            bound == px || bound == py || bound == pz,
            can_simulate(start, bound),
            i <= bound,
            bodies@ == after(start, i as nat),
            cycles.0 == (if px < i {
                px
            } else {
                0
            }),
            cycles.1 == (if py < i {
                py
            } else {
                0
            }),
            cycles.2 == (if pz < i {
                pz
            } else {
                0
            }),
        decreases bound - i,
    {
        if cycles.0 == 0 && agree(&initial, bodies, Axis::X) {
            cycles.0 = i;
        }
        if cycles.1 == 0 && agree(&initial, bodies, Axis::Y) {
            cycles.1 = i;
        }
        if cycles.2 == 0 && agree(&initial, bodies, Axis::Z) {
            cycles.2 = i;
        }
        if cycles.0 != 0 && cycles.1 != 0 && cycles.2 != 0 {
            return cycles;
        }
        proof {
            lemma_can_simulate_fewer(start, bound, (i + 1) as nat);
        }
        update_bodies(bodies);
        i += 1
    }
}

/// The largest of three numbers.
pub open spec fn largest(a: u64, b: u64, c: u64) -> u64 {
    if a >= b && a >= c {
        a
    } else if b >= c {
        b
    } else {
        c
    }
}

/// The least common multiple of `a` and `b`, as `Integer::lcm` computes it.
#[verifier::external_body]
fn lcm(a: u64, b: u64) -> (m: u64)
    requires
        a > 0,
        b > 0,
        exists|k: int| 0 < k <= u64::MAX && #[trigger] is_common_multiple(k, a as int, b as int),
    ensures
        is_lcm(m as int, a as int, b as int),
{
    a.lcm(&b)
}

/// The number of steps after which three cycles of the given lengths, begun
/// together, first end together.
pub fn cycle_length(px: u64, py: u64, pz: u64) -> (steps: u64)
    requires
        px > 0,
        py > 0,
        pz > 0,
        exists|k: int|
            0 < k <= u64::MAX && #[trigger] is_common_multiple3(
                k,
                px as int,
                py as int,
                pz as int,
            ),
    ensures
        is_lcm3(steps as int, px as int, py as int, pz as int),
{
    let ghost common = choose|k: int|
        0 < k <= u64::MAX && #[trigger] is_common_multiple3(k, px as int, py as int, pz as int);
    assert(is_common_multiple(common, px as int, py as int));
    let both = lcm(px, py);
    proof {
        lemma_lcm_divides(both as int, px as int, py as int, common);
        assert(is_common_multiple(common, both as int, pz as int));
    }
    let steps = lcm(both, pz);
    proof {
        let (l, m) = (both as int, steps as int);
        lemma_fundamental_div_mod(m, l);
        lemma_multiple_of_multiple(m / l, l, px as int);
        lemma_multiple_of_multiple(m / l, l, py as int);
        assert(m == l * (m / l));
        assert forall|k: int| 0 < k < m implies !#[trigger] is_common_multiple3(
            k,
            px as int,
            py as int,
            pz as int,
        ) by {
            if is_common_multiple3(k, px as int, py as int, pz as int) {
                assert(is_common_multiple(k, px as int, py as int));
                lemma_lcm_divides(l, px as int, py as int, k);
                assert(is_common_multiple(k, l, pz as int));
            }
        }
    }
    steps
}

} // verus!
