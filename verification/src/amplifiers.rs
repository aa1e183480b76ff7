//! Five amplifiers in series, each an Intcode machine running the same
//! program under its own phase setting: once through, or fed back in a ring
//! until the program halts.

use itertools::Itertools;
use vstd::prelude::*;
use crate::computer::IntComputer;
use crate::machine::{Machine, ProgramState};

verus! {

/// The number of amplifiers.
pub const STAGES: usize = 5;

/// An amplifier as it starts: the program, with the phase setting queued as
/// its first input.
pub open spec fn amplifier(program: Seq<i64>, phase: i64) -> Machine {
    Machine::boot(program).with_input(phase)
}

/// The signal that leaves amplifier number `stages` of the series, where the
/// first amplifier is given zero and each hands its first output to the next.
pub open spec fn pipeline_signal(program: Seq<i64>, sequence: Seq<i64>, stages: nat) -> i64
    decreases stages,
{
    if stages == 0 {
        0
    } else {
        let signal = pipeline_signal(program, sequence, (stages - 1) as nat);
        amplifier(program, sequence[stages - 1]).with_input(signal).outcome().output[0]
    }
}

/// Each of the first `stages` amplifiers comes to rest on its input and has
/// then produced an output.
pub open spec fn pipeline_runs(program: Seq<i64>, sequence: Seq<i64>, stages: nat) -> bool
    decreases stages,
{
    stages == 0 || {
        let signal = pipeline_signal(program, sequence, (stages - 1) as nat);
        let m = amplifier(program, sequence[stages - 1]).with_input(signal);
        &&& pipeline_runs(program, sequence, (stages - 1) as nat)
        &&& m.settles()
        &&& m.outcome().output.len() > 0
    }
}

/// Sends a zero signal through the five amplifiers in series and returns
/// what the last one puts out.
pub fn run_pipeline(program: &Vec<i64>, sequence: Vec<i64>) -> (signal: i64)
    requires
        sequence.len() >= STAGES,
        pipeline_runs(program@, sequence@, STAGES as nat),
    ensures
        signal == pipeline_signal(program@, sequence@, STAGES as nat),
{
    let mut io: i64 = 0;
    let mut i: usize = 0;
    while i < STAGES
        invariant
            i <= STAGES,
            sequence.len() >= STAGES,
            pipeline_runs(program@, sequence@, STAGES as nat),
            pipeline_runs(program@, sequence@, i as nat),
            io == pipeline_signal(program@, sequence@, i as nat),
        decreases STAGES - i,
    {
        proof {
            lemma_pipeline_runs_prefix(program@, sequence@, STAGES as nat, (i + 1) as nat);
        }
        let mut comp = IntComputer::new(copy_of(program));
        comp.push_input(sequence[i]);
        comp.push_input(io);
        comp.run();
        io = comp.output[0];
        i += 1;
    }
    io
}

/// Where the series runs up to some stage, it runs up to each earlier one.
pub proof fn lemma_pipeline_runs_prefix(
    program: Seq<i64>,
    sequence: Seq<i64>,
    stages: nat,
    earlier: nat,
)
    requires
        pipeline_runs(program, sequence, stages),
        earlier <= stages,
    ensures
        pipeline_runs(program, sequence, earlier),
    decreases stages,
{
    if earlier < stages {
        lemma_pipeline_runs_prefix(program, sequence, (stages - 1) as nat, earlier);
    }
}

/// The states of a row of machines.
pub open spec fn states_of(computers: Seq<IntComputer>) -> Seq<Machine> {
    Seq::new(computers.len(), |i: int| computers[i]@)
}

/// Every machine of the row has halted.
pub open spec fn all_finished(amps: Seq<Machine>) -> bool {
    forall|i: int| 0 <= i < amps.len() ==> (#[trigger] amps[i]).state == ProgramState::Finished
}

/// The ring of amplifiers as it starts: each with its phase setting queued,
/// and the first with a zero signal behind it.
pub open spec fn ring(program: Seq<i64>, sequence: Seq<i64>) -> Seq<Machine> {
    Seq::new(
        STAGES as nat,
        |i: int|
            if i == 0 {
                amplifier(program, sequence[i]).with_input(0)
            } else {
                amplifier(program, sequence[i])
            },
    )
}

/// The signal that the ring settles on, provided that it does so within
/// `fuel` turns. In a turn the amplifier at `turn` runs until it comes to
/// rest and its oldest output is taken. Once all amplifiers have halted, that
/// output is the result; until then it is queued as input of the next
/// amplifier, whose turn it then is. `None` where an amplifier does not come
/// to rest, or has no output to give.
pub open spec fn feedback_for(amps: Seq<Machine>, turn: int, fuel: nat) -> Option<i64>
    decreases fuel,
{
    if fuel == 0 || !amps[turn].run_settles() || amps[turn].run_outcome().output.len() == 0 {
        None
    } else {
        let rested = amps[turn].run_outcome();
        let io = rested.output[0];
        let taken = amps.update(turn, rested.without_first_output());
        if all_finished(taken) {
            Some(io)
        } else {
            let next = (turn + 1) % (STAGES as int);
            feedback_for(taken.update(next, taken[next].with_input(io)), next, (fuel - 1) as nat)
        }
    }
}

/// The ring settles on a signal after finitely many turns.
pub open spec fn feedback_settles(amps: Seq<Machine>, turn: int) -> bool {
    exists|fuel: nat| (#[trigger] feedback_for(amps, turn, fuel)) is Some
}

/// The signal that the ring settles on.
pub open spec fn feedback_signal(amps: Seq<Machine>, turn: int) -> i64
    recommends
        feedback_settles(amps, turn),
{
    feedback_for(
        amps,
        turn,
        choose|fuel: nat| (#[trigger] feedback_for(amps, turn, fuel)) is Some,
    ).unwrap()
}

/// More turns than needed change nothing.
pub proof fn lemma_feedback_more_fuel(amps: Seq<Machine>, turn: int, enough: nat, more: nat)
    requires
        feedback_for(amps, turn, enough) is Some,
        enough <= more,
    ensures
        feedback_for(amps, turn, more) == feedback_for(amps, turn, enough),
    decreases enough,
{
    let rested = amps[turn].run_outcome();
    let taken = amps.update(turn, rested.without_first_output());
    if !all_finished(taken) {
        let next = (turn + 1) % (STAGES as int);
        lemma_feedback_more_fuel(
            taken.update(next, taken[next].with_input(rested.output[0])),
            next,
            (enough - 1) as nat,
            (more - 1) as nat,
        );
    }
}

/// Whatever number of turns suffices, the ring settles on the same signal.
pub proof fn lemma_feedback_signal_is_unique(amps: Seq<Machine>, turn: int, fuel: nat)
    requires
        feedback_for(amps, turn, fuel) is Some,
    ensures
        feedback_settles(amps, turn),
        feedback_for(amps, turn, fuel) == Some(feedback_signal(amps, turn)),
{
    let chosen = choose|f: nat| (#[trigger] feedback_for(amps, turn, f)) is Some;
    if chosen <= fuel {
        lemma_feedback_more_fuel(amps, turn, chosen, fuel);
    } else {
        lemma_feedback_more_fuel(amps, turn, fuel, chosen);
    }
}

/// Tells whether every machine of the row has halted.
fn all_halted(computers: &Vec<IntComputer>) -> (b: bool)
    ensures
        b == all_finished(states_of(computers@)),
{
    let mut i: usize = 0;
    while i < computers.len()
        invariant
            i <= computers.len(),
            forall|k: int|
                0 <= k < i ==> (#[trigger] states_of(computers@)[k]).state
                    == ProgramState::Finished,
        decreases computers.len() - i,
    {
        if computers[i].state != ProgramState::Finished {
            assert(states_of(computers@)[i as int].state != ProgramState::Finished);
            return false;
        }
        assert(states_of(computers@)[i as int].state == ProgramState::Finished);
        i += 1;
    }
    true
}

/// Runs the five amplifiers as a ring, starting from a zero signal, until all
/// have halted, and returns the signal that the last turn produced.
pub fn run_pipeline_feedback(program: &Vec<i64>, sequence: Vec<i64>) -> (signal: i64)
    requires
        sequence.len() >= STAGES,
        feedback_settles(ring(program@, sequence@), 0),
    ensures
        signal == feedback_signal(ring(program@, sequence@), 0),
{
    let mut computers: Vec<IntComputer> = Vec::new();
    let mut i: usize = 0;
    while i < STAGES
        invariant
            i <= STAGES,
            sequence.len() >= STAGES,
            computers.len() == i,
            forall|k: int|
                0 <= k < i ==> (#[trigger] computers@[k])@ == amplifier(program@, sequence@[k]),
        decreases STAGES - i,
    {
        let mut comp = IntComputer::new(copy_of(program));
        comp.push_input(sequence[i]);
        computers.push(comp);
        i += 1;
    }

    computers[0].push_input(0);
    assert(states_of(computers@) =~= ring(program@, sequence@));

    let ghost start = ring(program@, sequence@);
    let ghost mut fuel: nat = choose|f: nat| (#[trigger] feedback_for(start, 0, f)) is Some;
    proof {
        lemma_feedback_signal_is_unique(start, 0, fuel);
    }
    let mut idx: usize = 0;
    loop
        invariant
            idx < STAGES,
            computers.len() == STAGES,
            start == ring(program@, sequence@),
            feedback_settles(start, 0),
            feedback_for(states_of(computers@), idx as int, fuel) == Some(
                feedback_signal(start, 0),
            ),
        decreases fuel,
    {
        let ghost amps = states_of(computers@);
        assert(amps[idx as int] == computers@[idx as int]@);
        computers[idx].run();
        let io = computers[idx].pop_output();
        proof {
            let rested = amps[idx as int].run_outcome();
            assert(states_of(computers@) =~= amps.update(
                idx as int,
                rested.without_first_output(),
            ));
        }

        if all_halted(&computers) {
            return io;
        }
        let ghost taken = states_of(computers@);

        idx += 1;
        idx %= STAGES;

        computers[idx].push_input(io);
        proof {
            assert(states_of(computers@) =~= taken.update(
                idx as int,
                taken[idx as int].with_input(io),
            ));
            fuel = (fuel - 1) as nat;
        }
    }
}

/// `positions` draws `k` of `n` places, none of them twice.
pub open spec fn is_drawing(positions: Seq<int>, n: nat, k: nat) -> bool {
    &&& positions.len() == k
    &&& forall|j: int| 0 <= j < k ==> 0 <= #[trigger] positions[j] < n
    &&& forall|i: int, j: int| 0 <= i < j < k ==> positions[i] != positions[j]
}

/// `a` lines up `k` of the `items`, each place of `items` used at most once.
#[verifier::opaque]
pub open spec fn is_arrangement(a: Seq<i64>, items: Seq<i64>, k: nat) -> bool {
    &&& a.len() == k
    &&& exists|positions: Seq<int>|
        #![trigger is_drawing(positions, items.len(), k)]
        is_drawing(positions, items.len(), k) && forall|j: int|
            0 <= j < k ==> a[j] == items[positions[j]]
}

/// The five phase settings that start at `low`.
pub open spec fn phase_settings(low: i64) -> Seq<i64> {
    Seq::new(STAGES as nat, |j: int| (low + j) as i64)
}

/// All ways to line up `k` of the `items`, as `Itertools::permutations`
/// yields them. Each list returned is such an arrangement, and every such
/// arrangement is among those returned; nothing is claimed of their order.
#[verifier::external_body]
fn permutations(items: Vec<i64>, k: usize) -> (perms: Vec<Vec<i64>>)
    requires
        items.len() <= 9,
    ensures
        forall|i: int|
            0 <= i < perms.len() ==> is_arrangement((#[trigger] perms[i])@, items@, k as nat),
        forall|a: Seq<i64>|
            is_arrangement(a, items@, k as nat) ==> exists|i: int|
                0 <= i < perms.len() && (#[trigger] perms[i])@ == a,
{
    items.into_iter().permutations(k).collect()
}

/// Builds the five phase settings that start at `low`.
fn settings(low: i64) -> (phases: Vec<i64>)
    requires
        low + STAGES <= i64::MAX,
    ensures
        phases@ == phase_settings(low),
{
    let mut phases: Vec<i64> = Vec::new();
    let mut j: usize = 0;
    while j < STAGES
        invariant
            j <= STAGES,
            low + STAGES <= i64::MAX,
            phases.len() == j,
            forall|k: int| 0 <= k < j ==> phases@[k] == low + k,
        decreases STAGES - j,
    {
        phases.push(low + j as i64);
        j += 1;
    }
    assert(phases@ =~= phase_settings(low));
    phases
}

/// An arrangement of `k` items has `k` items.
pub proof fn lemma_arrangement_len(a: Seq<i64>, items: Seq<i64>, k: nat)
    requires
        is_arrangement(a, items, k),
    ensures
        a.len() == k,
{
    reveal(is_arrangement);
}

/// A copy of `v`.
fn copy_of(v: &Vec<i64>) -> (c: Vec<i64>)
    ensures
        c@ == v@,
{
    let c = v.clone();
    assert(c@ =~= v@);
    c
}

/// The items as they stand are one of their own arrangements.
proof fn lemma_identity_is_arrangement(items: Seq<i64>)
    ensures
        is_arrangement(items, items, items.len()),
{
    reveal(is_arrangement);
    let positions = Seq::new(items.len(), |j: int| j);
    assert(is_drawing(positions, items.len(), items.len()));
}

/// The largest signal that the series puts out under any order of the phase
/// settings zero to four.
pub fn max_thrust(program: &Vec<i64>) -> (best: i64)
    requires
        forall|a: Seq<i64>|
            #![trigger is_arrangement(a, phase_settings(0), STAGES as nat)]
            is_arrangement(a, phase_settings(0), STAGES as nat) ==> pipeline_runs(
                program@,
                a,
                STAGES as nat,
            ),
    ensures
        exists|a: Seq<i64>|
            #![trigger is_arrangement(a, phase_settings(0), STAGES as nat)]
            is_arrangement(a, phase_settings(0), STAGES as nat) && best == pipeline_signal(
                program@,
                a,
                STAGES as nat,
            ),
        forall|a: Seq<i64>|
            #![trigger is_arrangement(a, phase_settings(0), STAGES as nat)]
            is_arrangement(a, phase_settings(0), STAGES as nat) ==> pipeline_signal(
                program@,
                a,
                STAGES as nat,
            ) <= best,
{
    let perms = permutations(settings(0), STAGES);
    let ghost items = phase_settings(0);
    proof {
        lemma_identity_is_arrangement(items);
    }
    proof {
        lemma_arrangement_len(perms[0]@, items, STAGES as nat);
    }
    let mut best: i64 = run_pipeline(program, copy_of(&perms[0]));
    let mut i: usize = 1;
    while i < perms.len()
        invariant
            1 <= i <= perms.len(),
            items == phase_settings(0),
            forall|a: Seq<i64>|
                #![trigger is_arrangement(a, items, STAGES as nat)]
                is_arrangement(a, items, STAGES as nat) ==> pipeline_runs(
                    program@,
                    a,
                    STAGES as nat,
                ),
            forall|k: int|
                0 <= k < perms.len() ==> is_arrangement(
                    (#[trigger] perms[k])@,
                    items,
                    STAGES as nat,
                ),
            exists|k: int|
                0 <= k < i && best == pipeline_signal(
                    program@,
                    (#[trigger] perms[k])@,
                    STAGES as nat,
                ),
            forall|k: int|
                0 <= k < i ==> pipeline_signal(program@, (#[trigger] perms[k])@, STAGES as nat)
                    <= best,
        decreases perms.len() - i,
    {
        proof {
            lemma_arrangement_len(perms[i as int]@, items, STAGES as nat);
        }
        let signal = run_pipeline(program, copy_of(&perms[i]));
        if signal > best {
            best = signal;
        }
        i += 1;
    }
    proof {
        let k = choose|k: int|
            0 <= k < perms.len() && best == pipeline_signal(
                program@,
                (#[trigger] perms[k])@,
                STAGES as nat,
            );
        assert(is_arrangement(perms[k]@, items, STAGES as nat));
        assert forall|a: Seq<i64>|
            #![trigger is_arrangement(a, phase_settings(0), STAGES as nat)]
            is_arrangement(a, phase_settings(0), STAGES as nat) implies pipeline_signal(
            program@,
            a,
            STAGES as nat,
        ) <= best by {
            let j = choose|j: int| 0 <= j < perms.len() && (#[trigger] perms[j])@ == a;
        }
    }
    best
}

/// The largest signal that the ring settles on under any order of the phase
/// settings five to nine.
pub fn max_thrust_feedback(program: &Vec<i64>) -> (best: i64)
    requires
        forall|a: Seq<i64>|
            #![trigger is_arrangement(a, phase_settings(5), STAGES as nat)]
            is_arrangement(a, phase_settings(5), STAGES as nat) ==> feedback_settles(
                ring(program@, a),
                0,
            ),
    ensures
        exists|a: Seq<i64>|
            #![trigger is_arrangement(a, phase_settings(5), STAGES as nat)]
            is_arrangement(a, phase_settings(5), STAGES as nat) && best == feedback_signal(
                ring(program@, a),
                0,
            ),
        forall|a: Seq<i64>|
            #![trigger is_arrangement(a, phase_settings(5), STAGES as nat)]
            is_arrangement(a, phase_settings(5), STAGES as nat) ==> feedback_signal(
                ring(program@, a),
                0,
            ) <= best,
{
    let perms = permutations(settings(5), STAGES);
    let ghost items = phase_settings(5);
    proof {
        lemma_identity_is_arrangement(items);
    }
    proof {
        lemma_arrangement_len(perms[0]@, items, STAGES as nat);
    }
    let mut best: i64 = run_pipeline_feedback(program, copy_of(&perms[0]));
    let mut i: usize = 1;
    while i < perms.len()
        invariant
            1 <= i <= perms.len(),
            items == phase_settings(5),
            forall|a: Seq<i64>|
                #![trigger is_arrangement(a, items, STAGES as nat)]
                is_arrangement(a, items, STAGES as nat) ==> feedback_settles(
                    ring(program@, a),
                    0,
                ),
            forall|k: int|
                0 <= k < perms.len() ==> is_arrangement(
                    (#[trigger] perms[k])@,
                    items,
                    STAGES as nat,
                ),
            exists|k: int|
                0 <= k < i && best == feedback_signal(ring(program@, (#[trigger] perms[k])@), 0),
            forall|k: int|
                0 <= k < i ==> feedback_signal(ring(program@, (#[trigger] perms[k])@), 0)
                    <= best,
        decreases perms.len() - i,
    {
        proof {
            lemma_arrangement_len(perms[i as int]@, items, STAGES as nat);
        }
        let signal = run_pipeline_feedback(program, copy_of(&perms[i]));
        if signal > best {
            best = signal;
        }
        i += 1;
    }
    proof {
        let k = choose|k: int|
            0 <= k < perms.len() && best == feedback_signal(
                ring(program@, (#[trigger] perms[k])@),
                0,
            );
        assert(is_arrangement(perms[k]@, items, STAGES as nat));
        assert forall|a: Seq<i64>|
            #![trigger is_arrangement(a, phase_settings(5), STAGES as nat)]
            is_arrangement(a, phase_settings(5), STAGES as nat) implies feedback_signal(
            ring(program@, a),
            0,
        ) <= best by {
            let j = choose|j: int| 0 <= j < perms.len() && (#[trigger] perms[j])@ == a;
        }
    }
    best
}

} // verus!
