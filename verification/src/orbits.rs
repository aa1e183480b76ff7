//! A map of what orbits what, and the two questions asked of it: how many
//! orbits there are in all, and how to get from one body to another.

use vstd::prelude::*;
use crate::text::{
    chars_of, copy_range, find, names_of, pieces, position_of, split, split_bounds, string_of,
    texts_of, trim, trim_bounds,
};

verus! {

/// What orbits what: a list of centers and, for each center, the bodies in
/// orbit around it, in the order in which they were entered.
pub struct Orbits {
    pub centers: Seq<Seq<char>>,
    pub satellites: Seq<Seq<Seq<char>>>,
}

impl Orbits {
    /// The map without any orbit.
    pub open spec fn empty() -> Orbits {
        Orbits { centers: Seq::empty(), satellites: Seq::empty() }
    }

    /// Every center has its list of satellites.
    pub open spec fn wf(self) -> bool {
        self.centers.len() == self.satellites.len()
    }

    /// Something orbits `name`.
    pub open spec fn contains_key(self, name: Seq<char>) -> bool {
        self.centers.contains(name)
    }

    /// The bodies in orbit around `name`.
    pub open spec fn get(self, name: Seq<char>) -> Seq<Seq<char>>
        recommends
            self.contains_key(name),
    {
        self.satellites[find(self.centers, name)]
    }

    /// The map with `satellite` entered as the last body in orbit around
    /// `center`.
    pub open spec fn with_orbit(self, center: Seq<char>, satellite: Seq<char>) -> Orbits {
        if self.contains_key(center) {
            let i = find(self.centers, center);
            Orbits { satellites: self.satellites.update(i, self.satellites[i].push(satellite)), ..self }
        } else {
            Orbits {
                centers: self.centers.push(center),
                satellites: self.satellites.push(seq![satellite]),
            }
        }
    }

    /// The sum, over the first `upto` satellites of `body` and all that
    /// orbits them, of their distances from the root, added to `depth`;
    /// `depth` alone where nothing orbits `body`. `None` where the orbits
    /// reach deeper than `fuel`.
    pub open spec fn count_from(
        self,
        body: Seq<char>,
        depth: int,
        upto: int,
        fuel: nat,
    ) -> Option<int>
        decreases fuel, upto,
    {
        if !self.contains_key(body) || upto <= 0 {
            Some(depth)
        } else if fuel == 0 {
            None
        } else {
            let child = self.get(body)[upto - 1];
            match (
                self.count_from(body, depth, upto - 1, fuel),
                self.count_from(
                    child,
                    depth + 1,
                    self.get(child).len() as int,
                    (fuel - 1) as nat,
                ),
            ) {
                (Some(before), Some(below)) => Some(before + below),
                _ => None,
            }
        }
    }

    /// The sum of the distances from the root of `body`, which lies at
    /// distance `depth`, and of everything that orbits it, directly or not.
    /// `None` where the orbits reach deeper than `fuel`.
    pub open spec fn count_for(self, body: Seq<char>, depth: int, fuel: nat) -> Option<int> {
        self.count_from(body, depth, self.get(body).len() as int, fuel)
    }

    /// The orbits below `body` end somewhere.
    pub open spec fn countable(self, body: Seq<char>, depth: int) -> bool {
        exists|fuel: nat| (#[trigger] self.count_for(body, depth, fuel)) is Some
    }

    /// The sum of the distances from the root of `body`, which lies at
    /// distance `depth`, and of everything that orbits it, directly or not.
    pub open spec fn count(self, body: Seq<char>, depth: int) -> int
        recommends
            self.countable(body, depth),
    {
        self.count_for(
            body,
            depth,
            choose|fuel: nat| (#[trigger] self.count_for(body, depth, fuel)) is Some,
        ).unwrap()
    }

    /// The way down from `cur` to `dst` as found through the first `upto`
    /// satellites of `cur`: for each of them that leads to `dst`, `cur`
    /// followed by the way from that satellite.
    pub open spec fn path_from(
        self,
        cur: Seq<char>,
        dst: Seq<char>,
        upto: int,
        fuel: nat,
    ) -> Option<Seq<Seq<char>>>
        decreases fuel, upto,
    {
        if upto <= 0 {
            Some(Seq::empty())
        } else if fuel == 0 {
            None
        } else {
            match (
                self.path_from(cur, dst, upto - 1, fuel),
                self.path_for(self.get(cur)[upto - 1], dst, (fuel - 1) as nat),
            ) {
                (Some(before), Some(below)) => Some(
                    if below.len() > 0 {
                        before.push(cur) + below
                    } else {
                        before
                    },
                ),
                _ => None,
            }
        }
    }

    /// The way down from `cur` to the body that `dst` orbits, both included:
    /// empty where nothing orbits `cur` or no way leads to `dst`. `None`
    /// where the orbits reach deeper than `fuel`.
    pub open spec fn path_for(self, cur: Seq<char>, dst: Seq<char>, fuel: nat) -> Option<
        Seq<Seq<char>>,
    >
        decreases fuel, self.get(cur).len() + 1,
    {
        if !self.contains_key(cur) {
            Some(Seq::empty())
        } else if self.get(cur).contains(dst) {
            Some(seq![cur])
        } else {
            self.path_from(cur, dst, self.get(cur).len() as int, fuel)
        }
    }

    /// The search from `cur` for `dst` ends somewhere.
    pub open spec fn searchable(self, cur: Seq<char>, dst: Seq<char>) -> bool {
        exists|fuel: nat| (#[trigger] self.path_for(cur, dst, fuel)) is Some
    }

    /// The way down from `cur` to the body that `dst` orbits.
    pub open spec fn path(self, cur: Seq<char>, dst: Seq<char>) -> Seq<Seq<char>>
        recommends
            self.searchable(cur, dst),
    {
        self.path_for(
            cur,
            dst,
            choose|fuel: nat| (#[trigger] self.path_for(cur, dst, fuel)) is Some,
        ).unwrap()
    }
}

/// The line names a center and a satellite: white space around it set
/// aside, it holds a closing bracket.
pub open spec fn is_orbit_line(line: Seq<char>) -> bool {
    split(trim(line), ')').len() >= 2
}

/// The map that the lines describe, each of the form `center)satellite`.
pub open spec fn read_orbits(lines: Seq<Seq<char>>) -> Orbits
    decreases lines.len(),
{
    if lines.len() == 0 {
        Orbits::empty()
    } else {
        let parts = split(trim(lines.last()), ')');
        read_orbits(lines.drop_last()).with_orbit(parts[0], parts[1])
    }
}

/// The lists of names that a list of lists of character vectors holds.
pub open spec fn lists_of(v: Seq<Vec<Vec<char>>>) -> Seq<Seq<Seq<char>>> {
    Seq::new(v.len(), |i: int| names_of(v[i]@))
}

/// The texts that a list of string slices holds.
pub open spec fn lines_of(v: Seq<&str>) -> Seq<Seq<char>> {
    Seq::new(v.len(), |i: int| v[i]@)
}

/// More fuel than needed changes no count.
pub proof fn lemma_count_more_fuel(
    o: Orbits,
    body: Seq<char>,
    depth: int,
    upto: int,
    enough: nat,
    more: nat,
)
    requires
        o.count_from(body, depth, upto, enough) is Some,
        enough <= more,
    ensures
        o.count_from(body, depth, upto, more) == o.count_from(body, depth, upto, enough),
    decreases enough, upto,
{
    if o.contains_key(body) && upto > 0 {
        let child = o.get(body)[upto - 1];
        lemma_count_more_fuel(o, body, depth, upto - 1, enough, more);
        lemma_count_more_fuel(
            o,
            child,
            depth + 1,
            o.get(child).len() as int,
            (enough - 1) as nat,
            (more - 1) as nat,
        );
    }
}

/// Whatever fuel suffices, the count is the same.
pub proof fn lemma_count_is_unique(o: Orbits, body: Seq<char>, depth: int, fuel: nat)
    requires
        o.count_for(body, depth, fuel) is Some,
    ensures
        o.countable(body, depth),
        o.count_for(body, depth, fuel) == Some(o.count(body, depth)),
{
    let chosen = choose|f: nat| (#[trigger] o.count_for(body, depth, f)) is Some;
    let upto = o.get(body).len() as int;
    if chosen <= fuel {
        lemma_count_more_fuel(o, body, depth, upto, chosen, fuel);
    } else {
        lemma_count_more_fuel(o, body, depth, upto, fuel, chosen);
    }
}

/// A count over some satellites is defined where the count over more of them
/// is, and is neither larger than that nor smaller than the depth.
pub proof fn lemma_count_grows(o: Orbits, body: Seq<char>, depth: int, upto: int, fuel: nat)
    requires
        o.count_from(body, depth, upto, fuel) is Some,
        0 <= depth,
    ensures
        depth <= o.count_from(body, depth, upto, fuel).unwrap(),
        upto > 0 ==> o.count_from(body, depth, upto - 1, fuel) is Some && o.count_from(
            body,
            depth,
            upto - 1,
            fuel,
        ).unwrap() <= o.count_from(body, depth, upto, fuel).unwrap(),
    decreases fuel, upto,
{
    if o.contains_key(body) && upto > 0 {
        let child = o.get(body)[upto - 1];
        lemma_count_grows(o, body, depth, upto - 1, fuel);
        lemma_count_grows(o, child, depth + 1, o.get(child).len() as int, (fuel - 1) as nat);
    }
}

/// A count over fewer satellites is defined where the count over more of
/// them is, and is no larger.
pub proof fn lemma_count_down(
    o: Orbits,
    body: Seq<char>,
    depth: int,
    upto: int,
    fewer: int,
    fuel: nat,
)
    requires
        o.count_from(body, depth, upto, fuel) is Some,
        0 <= depth,
        0 <= fewer <= upto,
    ensures
        o.count_from(body, depth, fewer, fuel) is Some,
        o.count_from(body, depth, fewer, fuel).unwrap() <= o.count_from(
            body,
            depth,
            upto,
            fuel,
        ).unwrap(),
    decreases upto - fewer,
{
    if fewer < upto {
        lemma_count_grows(o, body, depth, upto, fuel);
        lemma_count_down(o, body, depth, upto - 1, fewer, fuel);
    }
}

/// More fuel than needed changes no path.
pub proof fn lemma_path_more_fuel(
    o: Orbits,
    cur: Seq<char>,
    dst: Seq<char>,
    enough: nat,
    more: nat,
)
    requires
        o.path_for(cur, dst, enough) is Some,
        enough <= more,
    ensures
        o.path_for(cur, dst, more) == o.path_for(cur, dst, enough),
    decreases enough, o.get(cur).len() + 1,
{
    if o.contains_key(cur) && !o.get(cur).contains(dst) {
        lemma_path_from_more_fuel(o, cur, dst, o.get(cur).len() as int, enough, more);
    }
}

/// More fuel than needed changes no path through the first satellites.
pub proof fn lemma_path_from_more_fuel(
    o: Orbits,
    cur: Seq<char>,
    dst: Seq<char>,
    upto: int,
    enough: nat,
    more: nat,
)
    requires
        o.path_from(cur, dst, upto, enough) is Some,
        enough <= more,
    ensures
        o.path_from(cur, dst, upto, more) == o.path_from(cur, dst, upto, enough),
    decreases enough, upto,
{
    if upto > 0 {
        lemma_path_from_more_fuel(o, cur, dst, upto - 1, enough, more);
        lemma_path_more_fuel(
            o,
            o.get(cur)[upto - 1],
            dst,
            (enough - 1) as nat,
            (more - 1) as nat,
        );
    }
}

/// Whatever fuel suffices, the path is the same.
pub proof fn lemma_path_is_unique(o: Orbits, cur: Seq<char>, dst: Seq<char>, fuel: nat)
    requires
        o.path_for(cur, dst, fuel) is Some,
    ensures
        o.searchable(cur, dst),
        o.path_for(cur, dst, fuel) == Some(o.path(cur, dst)),
{
    let chosen = choose|f: nat| (#[trigger] o.path_for(cur, dst, f)) is Some;
    if chosen <= fuel {
        lemma_path_more_fuel(o, cur, dst, chosen, fuel);
    } else {
        lemma_path_more_fuel(o, cur, dst, fuel, chosen);
    }
}

/// A path through some satellites is defined where the path through more of
/// them is.
pub proof fn lemma_path_from_prefix(
    o: Orbits,
    cur: Seq<char>,
    dst: Seq<char>,
    upto: int,
    fuel: nat,
)
    requires
        o.path_from(cur, dst, upto, fuel) is Some,
        upto > 0,
    ensures
        fuel > 0,
        o.path_from(cur, dst, upto - 1, fuel) is Some,
        o.path_for(o.get(cur)[upto - 1], dst, (fuel - 1) as nat) is Some,
{
}

/// A path through fewer satellites is defined where the path through more
/// of them is.
pub proof fn lemma_path_from_down(
    o: Orbits,
    cur: Seq<char>,
    dst: Seq<char>,
    upto: int,
    fewer: int,
    fuel: nat,
)
    requires
        o.path_from(cur, dst, upto, fuel) is Some,
        0 <= fewer <= upto,
    ensures
        o.path_from(cur, dst, fewer, fuel) is Some,
    decreases upto - fewer,
{
    if fewer < upto {
        lemma_path_from_prefix(o, cur, dst, upto, fuel);
        lemma_path_from_down(o, cur, dst, upto - 1, fewer, fuel);
    }
}

/// A map of what orbits what.
pub struct OrbitMap {
    pub centers: Vec<Vec<char>>,
    pub satellites: Vec<Vec<Vec<char>>>,
}

impl View for OrbitMap {
    type V = Orbits;

    open spec fn view(&self) -> Orbits {
        Orbits { centers: names_of(self.centers@), satellites: lists_of(self.satellites@) }
    }
}

/// The names of `list` as strings.
fn strings_of(list: &Vec<Vec<char>>) -> (strings: Vec<String>)
    ensures
        texts_of(strings@) == names_of(list@),
{
    let mut strings: Vec<String> = Vec::new();
    let mut i: usize = 0;
    while i < list.len()
        invariant
            i <= list.len(),
            strings@.len() == i,
            forall|k: int| 0 <= k < i ==> (#[trigger] strings@[k])@ == list@[k]@,
        decreases list.len() - i,
    {
        strings.push(string_of(&list[i]));
        i += 1;
    }
    assert(texts_of(strings@) =~= names_of(list@));
    strings
}

impl OrbitMap {
    /// Tells whether something orbits `name`.
    pub fn contains_key(&self, name: &str) -> (b: bool)
        ensures
            b == self@.contains_key(name@),
    {
        let name = chars_of(name);
        position_of(&self.centers, &name).is_some()
    }

    /// The bodies in orbit around `name`, in the order in which they were
    /// entered, or `None` where nothing orbits it.
    pub fn get(&self, name: &str) -> (found: Option<Vec<String>>)
        requires
            self@.wf(),
        ensures
            match found {
                Some(list) => self@.contains_key(name@) && texts_of(list@) == self@.get(name@),
                None => !self@.contains_key(name@),
            },
    {
        let name = chars_of(name);
        match position_of(&self.centers, &name) {
            Some(i) => {
                assert(self@.satellites[i as int] == names_of(self.satellites@[i as int]@));
                Some(strings_of(&self.satellites[i]))
            },
            None => None,
        }
    }

    /// Enters `satellite` as the last body in orbit around `center`.
    fn insert(&mut self, center: Vec<char>, satellite: Vec<char>)
        requires
            old(self)@.wf(),
        ensures
            final(self)@.wf(),
            final(self)@ == old(self)@.with_orbit(center@, satellite@),
    {
        let ghost before = self@;
        match position_of(&self.centers, &center) {
            Some(i) => {
                let ghost list = self.satellites@[i as int]@;
                self.satellites[i].push(satellite);
                proof {
                    assert(names_of(self.satellites@[i as int]@) =~= names_of(list).push(
                        satellite@,
                    ));
                    assert(self@.satellites =~= before.satellites.update(
                        i as int,
                        before.satellites[i as int].push(satellite@),
                    ));
                }
            },
            None => {
                let mut list: Vec<Vec<char>> = Vec::new();
                list.push(satellite);
                self.centers.push(center);
                self.satellites.push(list);
                proof {
                    assert(names_of(list@) =~= seq![satellite@]);
                    assert(self@.centers =~= before.centers.push(center@));
                    assert(self@.satellites =~= before.satellites.push(seq![satellite@]));
                }
            },
        }
    }
}

/// Reads the map that `lines` describe, each of the form `center)satellite`.
pub fn read_solar_system(lines: Vec<&str>) -> (map: OrbitMap)
    requires
        forall|i: int| 0 <= i < lines.len() ==> is_orbit_line((#[trigger] lines@[i])@),
    ensures
        map@.wf(),
        map@ == read_orbits(lines_of(lines@)),
{
    let mut map = OrbitMap { centers: Vec::new(), satellites: Vec::new() };
    let ghost all = lines_of(lines@);
    proof {
        assert(map@.centers =~= Seq::empty());
        assert(map@.satellites =~= Seq::empty());
        assert(all.take(0) =~= Seq::empty());
    }
    let mut i: usize = 0;
    while i < lines.len()
        invariant
            i <= lines.len(),
            all == lines_of(lines@),
            forall|k: int| 0 <= k < lines.len() ==> is_orbit_line((#[trigger] lines@[k])@),
            map@.wf(),
            map@ == read_orbits(all.take(i as int)),
        decreases lines.len() - i,
    {
        let chars = chars_of(lines[i]);
        let (start, end) = trim_bounds(&chars, 0, chars.len());
        let substr = split_bounds(&chars, start, end, ')');
        proof {
            assert(chars@.subrange(0, chars@.len() as int) =~= chars@);
            assert(is_orbit_line(lines@[i as int]@));
            assert(all.take(i + 1).drop_last() =~= all.take(i as int));
            assert(all.take(i + 1).last() == lines@[i as int]@);
            assert(pieces(chars@, substr@)[0] == chars@.subrange(
                substr@[0].0 as int,
                substr@[0].1 as int,
            ));
            assert(pieces(chars@, substr@)[1] == chars@.subrange(
                substr@[1].0 as int,
                substr@[1].1 as int,
            ));
        }
        let center = copy_range(&chars, substr[0].0, substr[0].1);
        let satellite = copy_range(&chars, substr[1].0, substr[1].1);
        map.insert(center, satellite);
        i += 1;
    }
    proof {
        assert(all.take(i as int) =~= all);
    }
    map
}

/// Searches the bodies below `cur` for the one that `dst` orbits.
fn find_with(map: &OrbitMap, cur: &Vec<char>, dst: &Vec<char>, Ghost(fuel): Ghost<nat>) -> (path:
    Vec<Vec<char>>)
    requires
        map@.wf(),
        map@.path_for(cur@, dst@, fuel) is Some,
    ensures
        Some(names_of(path@)) == map@.path_for(cur@, dst@, fuel),
    decreases fuel,
{
    let mut out: Vec<Vec<char>> = Vec::new();
    let i = match position_of(&map.centers, cur) {
        Some(i) => i,
        None => {
            assert(names_of(out@) =~= Seq::empty());
            return out;
        },
    };
    let children = &map.satellites[i];
    assert(map@.get(cur@) == names_of(children@));
    if position_of(children, dst).is_some() {
        out.push(copy_range(cur, 0, cur.len()));
        assert(cur@.subrange(0, cur@.len() as int) =~= cur@);
        assert(names_of(out@) =~= seq![cur@]);
        return out;
    }
    let mut k: usize = 0;
    proof {
        assert(names_of(out@) =~= Seq::empty());
    }
    while k < children.len()
        invariant
            k <= children.len(),
            map@.wf(),
            map@.get(cur@) == names_of(children@),
            map@.path_from(cur@, dst@, children.len() as int, fuel) is Some,
            map@.path_from(cur@, dst@, k as int, fuel) == Some(names_of(out@)),
        decreases children.len() - k,
    {
        proof {
            lemma_path_from_down(map@, cur@, dst@, children.len() as int, k + 1, fuel);
            lemma_path_from_prefix(map@, cur@, dst@, k + 1, fuel);
            assert(map@.get(cur@)[k as int] == children@[k as int]@);
        }
        let ghost before = names_of(out@);
        let mut traversal = find_with(map, &children[k], dst, Ghost((fuel - 1) as nat));
        let ghost below = names_of(traversal@);
        if traversal.len() > 0 {
            out.push(copy_range(cur, 0, cur.len()));
            assert(cur@.subrange(0, cur@.len() as int) =~= cur@);
        }
        out.append(&mut traversal);
        proof {
            if below.len() > 0 {
                assert(names_of(out@) =~= before.push(cur@) + below);
            } else {
                assert(names_of(out@) =~= before);
            }
        }
        k += 1;
    }
    out
}

/// The way down from `cur` to the body that `dst` orbits, both included;
/// empty where no way leads to `dst`.
pub fn find_in_tree(map: &OrbitMap, cur: &str, dst: &str) -> (path: Vec<String>)
    requires
        map@.wf(),
        map@.searchable(cur@, dst@),
    ensures
        texts_of(path@) == map@.path(cur@, dst@),
{
    let cur = chars_of(cur);
    let dst = chars_of(dst);
    let ghost fuel: nat = choose|f: nat| (#[trigger] map@.path_for(cur@, dst@, f)) is Some;
    let path = find_with(map, &cur, &dst, Ghost(fuel));
    strings_of(&path)
}

/// Counts the orbits below `body`, which lies `depth` orbits from the root.
fn count_with(map: &OrbitMap, body: &Vec<char>, depth: u32, Ghost(fuel): Ghost<nat>) -> (count:
    u32)
    requires
        map@.wf(),
        map@.count_for(body@, depth as int, fuel) is Some,
        map@.count_for(body@, depth as int, fuel).unwrap() <= u32::MAX,
    ensures
        Some(count as int) == map@.count_for(body@, depth as int, fuel),
    decreases fuel,
{
    let i = match position_of(&map.centers, body) {
        Some(i) => i,
        None => {
            return depth;
        },
    };
    let bodies = &map.satellites[i];
    assert(map@.get(body@) == names_of(bodies@));
    let ghost total = map@.count_for(body@, depth as int, fuel).unwrap();
    let mut acc: u32 = depth;
    let mut k: usize = 0;
    while k < bodies.len()
        invariant
            k <= bodies.len(),
            map@.wf(),
            map@.contains_key(body@),
            map@.get(body@) == names_of(bodies@),
            map@.count_from(body@, depth as int, bodies.len() as int, fuel) == Some(total),
            total <= u32::MAX,
            map@.count_from(body@, depth as int, k as int, fuel) == Some(acc as int),
        decreases bodies.len() - k,
    {
        proof {
            lemma_count_down(map@, body@, depth as int, bodies.len() as int, k + 1, fuel);
            lemma_count_grows(map@, body@, depth as int, k + 1, fuel);
            assert(map@.get(body@)[k as int] == bodies@[k as int]@);
            let child = bodies@[k as int]@;
            lemma_count_grows(
                map@,
                child,
                depth + 1,
                map@.get(child).len() as int,
                (fuel - 1) as nat,
            );
        }
        acc = acc + count_with(map, &bodies[k], depth + 1, Ghost((fuel - 1) as nat));
        k += 1;
    }
    acc
}

/// The sum of the distances from the root of `body`, which lies `depth`
/// orbits from it, and of everything that orbits `body`, directly or not.
pub fn count_orbits(map: &OrbitMap, body: &str, depth: u32) -> (count: u32)
    requires
        map@.wf(),
        map@.countable(body@, depth as int),
        map@.count(body@, depth as int) <= u32::MAX,
    ensures
        count == map@.count(body@, depth as int),
{
    let body = chars_of(body);
    let ghost fuel: nat = choose|f: nat|
        (#[trigger] map@.count_for(body@, depth as int, f)) is Some;
    count_with(map, &body, depth, Ghost(fuel))
}

/// How many places hold the same text in both lists.
pub open spec fn common_places(a: Seq<Seq<char>>, b: Seq<Seq<char>>, upto: int) -> int
    decreases upto,
{
    if upto <= 0 {
        0
    } else {
        common_places(a, b, upto - 1) + if a[upto - 1] == b[upto - 1] {
            1int
        } else {
            0int
        }
    }
}

/// The shorter of two lengths.
pub open spec fn shorter(a: int, b: int) -> int {
    if a < b {
        a
    } else {
        b
    }
}

/// The number of transfers between two bodies, given the way down to each
/// from a common root: the steps of both ways, less two for every place at
/// which both ways hold the same body.
pub fn transfers(path_a: &Vec<String>, path_b: &Vec<String>) -> (count: usize)
    requires
        path_a.len() + path_b.len() <= usize::MAX,
    ensures
        count == path_a.len() + path_b.len() - 2 * common_places(
            texts_of(path_a@),
            texts_of(path_b@),
            shorter(path_a.len() as int, path_b.len() as int),
        ),
{
    let n = if path_a.len() < path_b.len() {
        path_a.len()
    } else {
        path_b.len()
    };
    let mut common: usize = 0;
    let mut i: usize = 0;
    while i < n
        invariant
            i <= n,
            n <= path_a.len(),
            n <= path_b.len(),
            common <= i,
            common == common_places(texts_of(path_a@), texts_of(path_b@), i as int),
        decreases n - i,
    {
        if path_a[i] == path_b[i] {
            common += 1;
        }
        i += 1;
    }
    path_a.len() + path_b.len() - 2 * common
}

} // verus!
