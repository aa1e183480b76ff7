//! A program run with two of its cells replaced, and the search for the
//! replacement that yields a wanted result.

use vstd::prelude::*;
use crate::computer::IntComputer;
use crate::machine::{lemma_run_outcome_keeps_cells, Machine};

verus! {

/// The machine that starts on `program` with `noun` in cell one and `verb` in
/// cell two.
pub open spec fn patched(program: Seq<i64>, noun: i64, verb: i64) -> Machine {
    Machine::boot(program.update(1, noun).update(2, verb))
}

/// What the program, run with `noun` and `verb`, leaves in cell zero.
pub open spec fn result_of(program: Seq<i64>, noun: i64, verb: i64) -> i64 {
    patched(program, noun, verb).outcome().memory[0]
}

/// Runs `program` with `noun` in cell one and `verb` in cell two, and returns
/// what it leaves in cell zero.
pub fn run_program(program: &Vec<i64>, noun: i64, verb: i64) -> (result: i64)
    requires
        program.len() > 2,
        patched(program@, noun, verb).settles(),
    ensures
        result == result_of(program@, noun, verb),
{
    let mut prog = program.clone();
    assert(prog@ =~= program@);
    prog[1] = noun;
    prog[2] = verb;
    let mut comp = IntComputer::new(prog);
    proof {
        lemma_run_outcome_keeps_cells(comp@);
    }
    comp.run();
    comp.program[0]
}

/// The pair `(noun, verb)` is tried before the pair `(n, v)`.
pub open spec fn tried_before(noun: int, verb: int, n: int, v: int) -> bool {
    noun < n || (noun == n && verb < v)
}

/// Looks for a noun from 0 to 99 and a verb from 0 to 100 with which the
/// program leaves `target` in cell zero, nouns in rising order and for each
/// noun the verbs in rising order, and returns the first pair found.
pub fn find_inputs(program: &Vec<i64>, target: i64) -> (found: Option<(i64, i64)>)
    requires
        program.len() > 2,
        forall|n: i64, v: i64|
            0 <= n <= 99 && 0 <= v <= 100 ==> (#[trigger] patched(program@, n, v)).settles(),
    ensures
        match found {
            Some((noun, verb)) => {
                &&& 0 <= noun <= 99
                &&& 0 <= verb <= 100
                &&& result_of(program@, noun, verb) == target
                &&& forall|n: i64, v: i64|
                    0 <= n <= 99 && 0 <= v <= 100 && tried_before(
                        n as int,
                        v as int,
                        noun as int,
                        verb as int,
                    ) ==> #[trigger] result_of(program@, n, v) != target
            },
            None => forall|n: i64, v: i64|
                0 <= n <= 99 && 0 <= v <= 100 ==> #[trigger] result_of(program@, n, v) != target,
        },
{
    let mut noun: i64 = 0;
    while noun <= 99
        invariant
            0 <= noun <= 100,
            program.len() > 2,
            forall|n: i64, v: i64|
                0 <= n <= 99 && 0 <= v <= 100 ==> (#[trigger] patched(program@, n, v)).settles(),
            forall|n: i64, v: i64|
                0 <= n < noun && 0 <= v <= 100 ==> #[trigger] result_of(program@, n, v)
                    != target,
        decreases 100 - noun,
    {
        let mut verb: i64 = 0;
        while verb <= 100
            invariant
                0 <= noun <= 99,
                0 <= verb <= 101,
                program.len() > 2,
                forall|n: i64, v: i64|
                    0 <= n <= 99 && 0 <= v <= 100 ==> (#[trigger] patched(
                        program@,
                        n,
                        v,
                    )).settles(),
                forall|n: i64, v: i64|
                    0 <= n < noun && 0 <= v <= 100 ==> #[trigger] result_of(program@, n, v)
                        != target,
                forall|v: i64| 0 <= v < verb ==> #[trigger] result_of(program@, noun, v) != target,
            decreases 101 - verb,
        {
            assert(patched(program@, noun, verb).settles());
            let result = run_program(program, noun, verb);
            if result == target {
                return Some((noun, verb));
            }
            verb += 1;
        }
        noun += 1;
    }
    None
}

} // verus!
