//! Six-digit pass codes and the rules that a valid one obeys.

use vstd::prelude::*;

verus! {

/// A pass code, one field for each of its six digits, the leading one first.
#[derive(Debug, Clone, Copy)]
pub struct Pin(pub usize, pub usize, pub usize, pub usize, pub usize, pub usize);

impl Pin {
    /// Two digits next to each other are the same.
    pub open spec fn has_pair(self) -> bool {
        self.0 == self.1 || self.1 == self.2 || self.2 == self.3 || self.3 == self.4 || self.4
            == self.5
    }

    /// Two digits next to each other are the same, and the digits before and
    /// behind them differ from them.
    pub open spec fn has_exact_pair(self) -> bool {
        ||| (self.0 == self.1 && self.1 != self.2)
        ||| (self.0 != self.1 && self.1 == self.2 && self.2 != self.3)
        ||| (self.1 != self.2 && self.2 == self.3 && self.3 != self.4)
        ||| (self.2 != self.3 && self.3 == self.4 && self.4 != self.5)
        ||| (self.3 != self.4 && self.4 == self.5)
    }

    /// From left to right no digit is smaller than the one before.
    pub open spec fn never_falls(self) -> bool {
        self.0 <= self.1 <= self.2 <= self.3 <= self.4 <= self.5
    }

    /// The pass code of the number `num`.
    pub fn new(num: usize) -> (pin: Pin)
        ensures
            pin == pin_of(num as int),
    {
        let d0 = num / 100000;
        let d1 = (num % 100000) / 10000;
        let d2 = (num % 10000) / 1000;
        let d3 = (num % 1000) / 100;
        let d4 = (num % 100) / 10;
        let d5 = num % 10;
        Pin(d0, d1, d2, d3, d4, d5)
    }

    /// Tells whether two digits next to each other are the same.
    pub fn adjacent(&self) -> (b: bool)
        ensures
            b == self.has_pair(),
    {
        self.0 == self.1 || self.1 == self.2 || self.2 == self.3 || self.3 == self.4 || self.4
            == self.5
    }

    /// Tells whether two digits next to each other are the same without
    /// being part of a longer run.
    pub fn adjacent_doubles(&self) -> (b: bool)
        ensures
            b == self.has_exact_pair(),
    {
        (self.0 == self.1 && self.1 != self.2) || (self.0 != self.1 && self.1 == self.2 && self.2
            != self.3) || (self.1 != self.2 && self.2 == self.3 && self.3 != self.4) || (self.2
            != self.3 && self.3 == self.4 && self.4 != self.5) || (self.3 != self.4 && self.4
            == self.5)
    }

    /// Tells whether the digits never fall from left to right.
    pub fn growing(&self) -> (b: bool)
        ensures
            b == self.never_falls(),
    {
        self.0 <= self.1 && self.1 <= self.2 && self.2 <= self.3 && self.3 <= self.4 && self.4
            <= self.5
    }
}

/// The pass code of `num`: its last five decimal digits, and before them
/// whatever of `num` goes beyond those.
pub open spec fn pin_of(num: int) -> Pin {
    Pin(
        (num / 100000) as usize,
        ((num % 100000) / 10000) as usize,
        ((num % 10000) / 1000) as usize,
        ((num % 1000) / 100) as usize,
        ((num % 100) / 10) as usize,
        (num % 10) as usize,
    )
}

/// The number `num` makes a valid pass code: its digits never fall, and two
/// neighbours are the same; under the strict rule those two must not be part
/// of a longer run.
pub open spec fn is_valid(num: int, strict: bool) -> bool {
    pin_of(num).never_falls() && if strict {
        pin_of(num).has_exact_pair()
    } else {
        pin_of(num).has_pair()
    }
}

/// How many numbers from `lower` up to but not including `upper` make a valid
/// pass code.
pub open spec fn count_valid_below(lower: int, upper: int, strict: bool) -> int
    decreases upper - lower,
{
    if upper <= lower {
        0
    } else {
        count_valid_below(lower, upper - 1, strict) + if is_valid(upper - 1, strict) {
            1int
        } else {
            0int
        }
    }
}

/// Counts the numbers from `lower` to `upper`, both included, that make a
/// valid pass code.
pub fn count_valid(lower: usize, upper: usize, strict: bool) -> (count: usize)
    requires
        upper < usize::MAX,
    ensures
        count == count_valid_below(lower as int, upper + 1, strict),
{
    let mut count: usize = 0;
    let mut num: usize = lower;
    while num <= upper
        invariant
            upper < usize::MAX,
            lower <= num,
            num <= upper + 1 || num == lower,
            count == count_valid_below(lower as int, num as int, strict),
            count <= num - lower,
        decreases upper + 1 - num,
    {
        let pin = Pin::new(num);
        let pair = if strict {
            pin.adjacent_doubles()
        } else {
            pin.adjacent()
        };
        if pair && pin.growing() {
            count += 1;
        }
        num += 1;
    }
    count
}

} // verus!
