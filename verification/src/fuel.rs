//! The fuel that a module of a given mass needs, with or without the fuel
//! that the fuel itself needs.

use vstd::prelude::*;
use crate::text::{
    bounds_within, chars_of, is_signed, line_bounds, lines, parse_signed, pieces, signed_value,
};

verus! {

/// The fuel for a mass: a third of it, rounded down, less two; never less
/// than nothing.
pub open spec fn simple_fuel(mass: int) -> int {
    if mass < 9 {
        0
    } else {
        mass / 3 - 2
    }
}

/// The fuel for a mass, and for that fuel, and so on until no more is needed.
pub open spec fn complex_fuel(mass: int) -> int
    decreases mass,
{
    let fuel = simple_fuel(mass);
    if fuel <= 0 {
        0
    } else {
        fuel + complex_fuel(fuel)
    }
}

/// The fuel for all of `masses`, each taken alone.
pub open spec fn total_simple_fuel(masses: Seq<i32>) -> int
    decreases masses.len(),
{
    if masses.len() == 0 {
        0
    } else {
        total_simple_fuel(masses.drop_last()) + simple_fuel(masses.last() as int)
    }
}

/// The fuel for all of `masses`, each with the fuel for its fuel.
pub open spec fn total_complex_fuel(masses: Seq<i32>) -> int
    decreases masses.len(),
{
    if masses.len() == 0 {
        0
    } else {
        total_complex_fuel(masses.drop_last()) + complex_fuel(masses.last() as int)
    }
}

/// The fuel never weighs as much as what it is for, and is never negative.
pub proof fn lemma_complex_fuel_bounds(mass: int)
    ensures
        0 <= complex_fuel(mass),
        mass >= 0 ==> complex_fuel(mass) <= mass,
    decreases mass,
{
    let fuel = simple_fuel(mass);
    if fuel > 0 {
        lemma_complex_fuel_bounds(fuel);
    }
}

/// The fuel that a module of mass `mass` needs.
pub fn fuel_required_simple(mass: i32) -> (fuel: i32)
    ensures
        fuel == simple_fuel(mass as int),
{
    if mass < 0 {
        return 0;
    }
    let fuel: i32 = (mass / 3) - 2;
    if fuel < 0 {
        0
    } else {
        fuel
    }
}

/// The fuel that a module of mass `mass` needs, the fuel for the fuel
/// included.
pub fn fuel_required_complex(mass: i32) -> (total: i32)
    ensures
        total == complex_fuel(mass as int),
    decreases mass,
{
    let fuel = fuel_required_simple(mass);
    if fuel <= 0 {
        0
    } else {
        proof {
            lemma_complex_fuel_bounds(fuel as int);
        }
        fuel + fuel_required_complex(fuel)
    }
}

/// The fuel that all the modules need, each taken alone.
pub fn total_fuel_simple(masses: &Vec<i32>) -> (total: i32)
    requires
        forall|n: int|
            0 <= n <= masses.len() ==> #[trigger] total_simple_fuel(masses@.take(n)) <= i32::MAX,
    ensures
        total == total_simple_fuel(masses@),
{
    let mut total: i32 = 0;
    let mut i: usize = 0;
    while i < masses.len()
        invariant
            i <= masses.len(),
            forall|n: int|
                0 <= n <= masses.len() ==> #[trigger] total_simple_fuel(masses@.take(n))
                    <= i32::MAX,
            0 <= total == total_simple_fuel(masses@.take(i as int)),
        decreases masses.len() - i,
    {
        assert(masses@.take(i + 1).drop_last() =~= masses@.take(i as int));
        assert(total_simple_fuel(masses@.take(i + 1)) <= i32::MAX);
        total = total + fuel_required_simple(masses[i]);
        i += 1;
    }
    assert(masses@.take(i as int) =~= masses@);
    total
}

/// The fuel that all the modules need, the fuel for the fuel included.
pub fn total_fuel_complex(masses: &Vec<i32>) -> (total: i32)
    requires
        forall|n: int|
            0 <= n <= masses.len() ==> #[trigger] total_complex_fuel(masses@.take(n))
                <= i32::MAX,
    ensures
        total == total_complex_fuel(masses@),
{
    let mut total: i32 = 0;
    let mut i: usize = 0;
    while i < masses.len()
        invariant
            i <= masses.len(),
            forall|n: int|
                0 <= n <= masses.len() ==> #[trigger] total_complex_fuel(masses@.take(n))
                    <= i32::MAX,
            0 <= total == total_complex_fuel(masses@.take(i as int)),
        decreases masses.len() - i,
    {
        proof {
            assert(masses@.take(i + 1).drop_last() =~= masses@.take(i as int));
            lemma_complex_fuel_bounds(masses@[i as int] as int);
            assert(total_complex_fuel(masses@.take(i + 1)) <= i32::MAX);
        }
        total = total + fuel_required_complex(masses[i]);
        i += 1;
    }
    assert(masses@.take(i as int) =~= masses@);
    total
}

/// Every line is a signed number that a mass can hold.
pub open spec fn all_masses(lines: Seq<Seq<char>>) -> bool {
    forall|i: int|
        0 <= i < lines.len() ==> is_signed(#[trigger] lines[i]) && i32::MIN <= signed_value(
            lines[i],
        ) <= i32::MAX
}

/// Reads a list of masses, one to the line. `None` where a line is not a
/// number that a mass can hold.
pub fn parse_masses(text: &str) -> (masses: Option<Vec<i32>>)
    ensures
        match masses {
            Some(list) => {
                &&& all_masses(lines(text@))
                &&& list@.len() == lines(text@).len()
                &&& forall|i: int|
                    0 <= i < list@.len() ==> #[trigger] list@[i] == signed_value(lines(text@)[i])
            },
            None => !all_masses(lines(text@)),
        },
{
    let chars = chars_of(text);
    let bounds = line_bounds(&chars);
    let ghost all = lines(text@);
    let mut list: Vec<i32> = Vec::new();
    let mut k: usize = 0;
    while k < bounds.len()
        invariant
            k <= bounds.len(),
            all == lines(text@),
            all == pieces(chars@, bounds@),
            bounds_within(bounds@, 0, chars.len() as int),
            list@.len() == k,
            forall|i: int|
                0 <= i < k ==> is_signed(#[trigger] all[i]) && i32::MIN <= signed_value(all[i])
                    <= i32::MAX,
            forall|i: int| 0 <= i < k ==> #[trigger] list@[i] == signed_value(all[i]),
        decreases bounds.len() - k,
    {
        let (from, to) = bounds[k];
        assert(all[k as int] == chars@.subrange(from as int, to as int));
        assert(all.len() == bounds@.len());
        match parse_signed(&chars, from, to) {
            Some(v) => {
                if v < -2147483648 || v > 2147483647 {
                    return None;
                }
                list.push(v as i32);
            },
            None => {
                return None;
            },
        }
        k += 1;
    }
    Some(list)
}

} // verus!
