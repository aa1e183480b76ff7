//! The mathematical model of the virtual machine: its state, the effect of
//! one instruction, and what it means to run until the machine settles.

use vstd::prelude::*;
use crate::decode::{decode, Instruction, OpCode, ParameterMode};

verus! {

/// Whether the machine can execute, is blocked on input, or has halted.
#[derive(Debug, PartialEq, Eq, Structural, Clone, Copy)]
pub enum ProgramState {
    Finished,
    Running,
    WaitingForInput,
}

/// The complete state of a machine.
pub struct Machine {
    /// The memory cells, indexed from zero.
    pub memory: Seq<i64>,
    /// The index of the next instruction.
    pub pc: nat,
    /// The register added to relative-mode operands.
    pub base: int,
    /// The values waiting to be consumed, oldest first.
    pub input: Seq<i64>,
    /// The values produced and not yet taken away, oldest first.
    pub output: Seq<i64>,
    pub state: ProgramState,
}

/// An address that the executable machine can reach: it is not negative, it
/// is a cell value, and a memory that contains it still has a length.
pub open spec fn addressable(addr: int) -> bool {
    0 <= addr <= i64::MAX && addr < usize::MAX
}

/// `memory`, extended with zero cells where it has fewer than `len` cells.
pub open spec fn zero_filled(memory: Seq<i64>, len: nat) -> Seq<i64> {
    if len <= memory.len() {
        memory
    } else {
        memory + Seq::new((len - memory.len()) as nat, |i: int| 0i64)
    }
}

/// The value that an arithmetic or comparison instruction computes.
pub open spec fn arith_result(instr: Instruction, a: int, b: int) -> int {
    match instr {
        Instruction::Add => a + b,
        Instruction::Multiply => a * b,
        Instruction::Less => if a < b { 1 } else { 0 },
        Instruction::Equal => if a == b { 1 } else { 0 },
        _ => 0,
    }
}

/// Whether a jump instruction transfers control, given its condition operand.
pub open spec fn jump_taken(instr: Instruction, condition: int) -> bool {
    (instr == Instruction::JumpT && condition != 0) || (instr == Instruction::JumpF && condition
        == 0)
}

impl Machine {
    /// The machine as constructed from a program image.
    pub open spec fn boot(program: Seq<i64>) -> Machine {
        Machine {
            memory: program,
            pc: 0,
            base: 0,
            input: Seq::empty(),
            output: Seq::empty(),
            state: ProgramState::Running,
        }
    }

    /// This machine with one more value at the tail of its input queue.
    pub open spec fn with_input(self, value: i64) -> Machine {
        Machine { input: self.input.push(value), ..self }
    }

    /// This machine without the oldest value of its output queue.
    pub open spec fn without_first_output(self) -> Machine {
        Machine { output: self.output.drop_first(), ..self }
    }

    /// This machine, allowed to execute again.
    pub open spec fn resumed(self) -> Machine {
        Machine { state: ProgramState::Running, ..self }
    }

    /// The address that the parameter at `offset` cells behind the program
    /// counter designates: the operand itself, or for the relative mode the
    /// operand added to the relative base.
    pub open spec fn address(self, offset: nat, mode: ParameterMode) -> int {
        let operand = self.memory[(self.pc + offset) as int] as int;
        if mode == ParameterMode::Relative {
            self.base + operand
        } else {
            operand
        }
    }

    /// Reading the parameter at `offset`: the value read and the machine
    /// afterwards. An immediate operand is the value. Otherwise the value is
    /// the cell at the designated address, and the memory is first zero-filled
    /// up to and including that address. `None` is a fault: the operand lies
    /// outside the memory, the mode is invalid, or the address is unreachable.
    pub open spec fn read(self, offset: nat, mode: ParameterMode) -> Option<(i64, Machine)> {
        if self.pc + offset >= self.memory.len() {
            None
        } else if mode == ParameterMode::Immediate {
            Some((self.memory[(self.pc + offset) as int], self))
        } else if mode == ParameterMode::Invalid {
            None
        } else {
            let addr = self.address(offset, mode);
            if addressable(addr) {
                let memory = zero_filled(self.memory, (addr + 1) as nat);
                Some((memory[addr], Machine { memory, ..self }))
            } else {
                None
            }
        }
    }

    /// Writing `value` through the parameter at `offset`: the machine
    /// afterwards. The memory is first zero-filled up to and including the
    /// designated address. `None` is a fault: the operand lies outside the
    /// memory, the mode is neither position nor relative, or the address is
    /// unreachable.
    pub open spec fn write(self, offset: nat, mode: ParameterMode, value: i64) -> Option<Machine> {
        if self.pc + offset >= self.memory.len() {
            None
        } else if mode == ParameterMode::Position || mode == ParameterMode::Relative {
            let addr = self.address(offset, mode);
            if addressable(addr) {
                let memory = zero_filled(self.memory, (addr + 1) as nat).update(addr, value);
                Some(Machine { memory, ..self })
            } else {
                None
            }
        } else {
            None
        }
    }

    /// Add, Multiply, Less and Equal: two operands are read, the result is
    /// written through the third parameter, and the program counter advances
    /// by four. A result outside the range of a cell is a fault.
    pub open spec fn arith(self, op: OpCode) -> Option<Machine> {
        match self.read(1, op.param_mode.0) {
            Some((a, m1)) => match m1.read(2, op.param_mode.1) {
                Some((b, m2)) => {
                    let result = arith_result(op.instr, a as int, b as int);
                    if i64::MIN <= result <= i64::MAX {
                        match m2.write(3, op.param_mode.2, result as i64) {
                            Some(m3) => Some(Machine { pc: self.pc + 4, ..m3 }),
                            None => None,
                        }
                    } else {
                        None
                    }
                },
                None => None,
            },
            None => None,
        }
    }

    /// Input and Output. Input on an empty queue blocks: only the state
    /// changes. Otherwise the oldest input value is removed and written
    /// through the parameter. Output appends the operand to the output queue.
    /// Both then advance the program counter by two.
    pub open spec fn io(self, op: OpCode) -> Option<Machine> {
        match op.instr {
            Instruction::Input => {
                if self.input.len() == 0 {
                    Some(Machine { state: ProgramState::WaitingForInput, ..self })
                } else {
                    let popped = Machine { input: self.input.drop_first(), ..self };
                    match popped.write(1, op.param_mode.0, self.input[0]) {
                        Some(m) => Some(Machine { pc: self.pc + 2, ..m }),
                        None => None,
                    }
                }
            },
            Instruction::Output => match self.read(1, op.param_mode.0) {
                Some((value, m)) => Some(
                    Machine { pc: self.pc + 2, output: m.output.push(value), ..m },
                ),
                None => None,
            },
            _ => if self.pc + 2 <= usize::MAX {
                Some(Machine { pc: self.pc + 2, ..self })
            } else {
                None
            },
        }
    }

    /// AdjustBase: the operand is added to the relative base, and the program
    /// counter advances by two. A base outside the range of a cell is a fault.
    pub open spec fn adjust_base(self, op: OpCode) -> Option<Machine> {
        match self.read(1, op.param_mode.0) {
            Some((value, m)) => {
                if i64::MIN <= self.base + value <= i64::MAX {
                    Some(Machine { pc: self.pc + 2, base: self.base + value, ..m })
                } else {
                    None
                }
            },
            None => None,
        }
    }

    /// JumpIfTrue and JumpIfFalse: condition and target are read. Where the
    /// condition holds and the target lies inside the memory, the program
    /// counter becomes the target; otherwise it advances by three.
    pub open spec fn jump(self, op: OpCode) -> Option<Machine> {
        match self.read(1, op.param_mode.0) {
            Some((condition, m1)) => match m1.read(2, op.param_mode.1) {
                Some((target, m2)) => {
                    if jump_taken(op.instr, condition as int) && 0 <= target < m2.memory.len() {
                        Some(Machine { pc: target as nat, ..m2 })
                    } else {
                        Some(Machine { pc: self.pc + 3, ..m2 })
                    }
                },
                None => None,
            },
            None => None,
        }
    }

    /// The effect of the instruction at the program counter, or `None` where
    /// it faults: the program counter lies outside the memory, the word there
    /// does not decode, or the instruction itself faults.
    pub open spec fn step(self) -> Option<Machine> {
        if self.pc >= self.memory.len() {
            None
        } else {
            match decode(self.memory[self.pc as int] as int) {
                Some(op) => match op.instr {
                    Instruction::Add
                    | Instruction::Multiply
                    | Instruction::Less
                    | Instruction::Equal => self.arith(op),
                    Instruction::Input | Instruction::Output => self.io(op),
                    Instruction::JumpF | Instruction::JumpT => self.jump(op),
                    Instruction::AdjBase => self.adjust_base(op),
                    Instruction::Halt => Some(Machine { state: ProgramState::Finished, ..self }),
                },
                None => None,
            }
        }
    }

    /// The instruction at the program counter is an input instruction, whose
    /// decoded form is `op`.
    pub open spec fn at_input_instruction(self, op: OpCode) -> bool {
        &&& self.pc < self.memory.len()
        &&& decode(self.memory[self.pc as int] as int) == Some(op)
        &&& op.instr == Instruction::Input
    }

    /// The machine waits at an input instruction and its input queue is empty.
    pub open spec fn blocked_on_input(self, op: OpCode) -> bool {
        &&& self.state == ProgramState::WaitingForInput
        &&& self.input.len() == 0
        &&& self.at_input_instruction(op)
    }

    /// The machine once it has left the running state, provided that it does
    /// so after at most `fuel` instructions, none of which faults.
    pub open spec fn run_for(self, fuel: nat) -> Option<Machine>
        decreases fuel,
    {
        if self.state != ProgramState::Running {
            Some(self)
        } else if fuel == 0 {
            None
        } else {
            match self.step() {
                Some(next) => next.run_for((fuel - 1) as nat),
                None => None,
            }
        }
    }

    /// Execution from this state leaves the running state after finitely many
    /// instructions, none of which faults.
    pub open spec fn settles(self) -> bool {
        exists|fuel: nat| (#[trigger] self.run_for(fuel)) is Some
    }

    /// The state in which execution from this state comes to rest.
    pub open spec fn outcome(self) -> Machine
        recommends
            self.settles(),
    {
        self.run_for(choose|fuel: nat| (#[trigger] self.run_for(fuel)) is Some).unwrap()
    }

    /// A call of `run` on this machine returns, without a fault.
    pub open spec fn run_settles(self) -> bool {
        self.state == ProgramState::Finished || self.resumed().settles()
    }

    /// The state that a call of `run` leaves behind. A finished machine stays
    /// as it is; any other resumes and executes until it comes to rest.
    pub open spec fn run_outcome(self) -> Machine
        recommends
            self.run_settles(),
    {
        if self.state == ProgramState::Finished {
            self
        } else {
            self.resumed().outcome()
        }
    }
}

/// More fuel than needed changes nothing.
pub proof fn lemma_run_for_more_fuel(m: Machine, enough: nat, more: nat)
    requires
        m.run_for(enough) is Some,
        enough <= more,
    ensures
        m.run_for(more) == m.run_for(enough),
    decreases enough,
{
    if m.state == ProgramState::Running {
        lemma_run_for_more_fuel(m.step().unwrap(), (enough - 1) as nat, (more - 1) as nat);
    }
}

/// Whatever amount of fuel suffices, the machine comes to rest in its outcome.
pub proof fn lemma_outcome_is_unique(m: Machine, fuel: nat)
    requires
        m.run_for(fuel) is Some,
    ensures
        m.settles(),
        m.run_for(fuel) == Some(m.outcome()),
{
    let chosen = choose|f: nat| (#[trigger] m.run_for(f)) is Some;
    if chosen <= fuel {
        lemma_run_for_more_fuel(m, chosen, fuel);
    } else {
        lemma_run_for_more_fuel(m, fuel, chosen);
    }
}

/// A machine that has come to rest is not running.
pub proof fn lemma_run_for_rests(m: Machine, fuel: nat)
    requires
        m.run_for(fuel) is Some,
    ensures
        m.run_for(fuel).unwrap().state != ProgramState::Running,
    decreases fuel,
{
    if m.state == ProgramState::Running {
        lemma_run_for_rests(m.step().unwrap(), (fuel - 1) as nat);
    }
}

/// A call of `run` leaves the machine halted or waiting for input.
pub proof fn lemma_run_outcome_rests(m: Machine)
    requires
        m.run_settles(),
    ensures
        m.run_outcome().state != ProgramState::Running,
{
    if m.state != ProgramState::Finished {
        let r = m.resumed();
        let fuel = choose|f: nat| (#[trigger] r.run_for(f)) is Some;
        lemma_run_for_rests(r, fuel);
    }
}

/// No instruction makes the memory shorter.
pub proof fn lemma_step_keeps_cells(m: Machine)
    requires
        m.step() is Some,
    ensures
        m.step().unwrap().memory.len() >= m.memory.len(),
{
}

/// Running never makes the memory shorter.
pub proof fn lemma_run_for_keeps_cells(m: Machine, fuel: nat)
    requires
        m.run_for(fuel) is Some,
    ensures
        m.run_for(fuel).unwrap().memory.len() >= m.memory.len(),
    decreases fuel,
{
    if m.state == ProgramState::Running {
        lemma_step_keeps_cells(m);
        lemma_run_for_keeps_cells(m.step().unwrap(), (fuel - 1) as nat);
    }
}

/// A call of `run` never makes the memory shorter.
pub proof fn lemma_run_outcome_keeps_cells(m: Machine)
    requires
        m.run_settles(),
    ensures
        m.run_outcome().memory.len() >= m.memory.len(),
{
    if m.state != ProgramState::Finished {
        let r = m.resumed();
        let fuel = choose|f: nat| (#[trigger] r.run_for(f)) is Some;
        lemma_run_for_keeps_cells(r, fuel);
    }
}

/// A machine that is not running is its own outcome.
pub proof fn lemma_outcome_at_rest(m: Machine)
    requires
        m.state != ProgramState::Running,
    ensures
        m.settles(),
        m.outcome() == m,
{
    assert(m.run_for(0) == Some(m));
    lemma_outcome_is_unique(m, 0);
}

/// A running machine that settles executes one instruction and then comes to
/// rest where its successor does.
pub proof fn lemma_outcome_unfolds(m: Machine)
    requires
        m.state == ProgramState::Running,
        m.settles(),
    ensures
        m.step() is Some,
        m.step().unwrap().settles(),
        m.outcome() == m.step().unwrap().outcome(),
{
    let fuel = choose|f: nat| (#[trigger] m.run_for(f)) is Some;
    lemma_outcome_is_unique(m, fuel);
    lemma_outcome_is_unique(m.step().unwrap(), (fuel - 1) as nat);
}

/// Running a machine that stands at an input instruction with an empty input
/// queue returns at once: the machine then waits for input, and nothing else
/// has changed. For a machine that was waiting already, nothing changes at
/// all: program counter, memory, relative base and both queues stay as they
/// are.
pub proof fn lemma_run_while_blocked(m: Machine, op: OpCode)
    requires
        m.at_input_instruction(op),
        m.input.len() == 0,
        m.state != ProgramState::Finished,
    ensures
        m.run_settles(),
        m.run_outcome() == (Machine { state: ProgramState::WaitingForInput, ..m }),
        m.blocked_on_input(op) ==> m.run_outcome() == m,
{
    let r = m.resumed();
    let waiting = Machine { state: ProgramState::WaitingForInput, ..m };
    assert(r.step() == Some(waiting));
    assert(waiting.run_for(0) == Some(waiting));
    assert(r.run_for(1) == Some(waiting));
    lemma_outcome_is_unique(r, 1);
}

/// Once a value has been pushed to a machine that was blocked on input, the
/// next run first executes the blocked instruction again, and only that: it
/// takes exactly the pushed value off the queue and writes it through the
/// instruction's one parameter, advances the program counter by two, and
/// leaves relative base and output queue alone. The run then goes on from
/// there.
pub proof fn lemma_run_after_input(m: Machine, op: OpCode, value: i64)
    requires
        m.blocked_on_input(op),
        m.write(1, op.param_mode.0, value) is Some,
    ensures
        ({
            let fed = m.with_input(value);
            let written = m.write(1, op.param_mode.0, value).unwrap();
            let next = Machine {
                memory: written.memory,
                pc: m.pc + 2,
                state: ProgramState::Running,
                ..m
            };
            &&& fed.resumed().step() == Some(next)
            &&& fed.run_settles() <==> next.settles()
            &&& next.settles() ==> fed.run_outcome() == next.outcome()
        }),
{
    let fed = m.with_input(value);
    let r = fed.resumed();
    let written = m.write(1, op.param_mode.0, value).unwrap();
    let next = Machine { memory: written.memory, pc: m.pc + 2, state: ProgramState::Running, ..m };
    assert(r.input.drop_first() =~= m.input);
    assert(r.input[0] == value);
    let popped = Machine { input: r.input.drop_first(), ..r };
    assert(popped.write(1, op.param_mode.0, value) == Some(
        Machine { memory: written.memory, ..popped },
    ));
    assert(r.step() == Some(next));
    if r.settles() {
        lemma_outcome_unfolds(r);
    }
    if next.settles() {
        let fuel = choose|f: nat| (#[trigger] next.run_for(f)) is Some;
        assert(r.run_for(fuel + 1) == next.run_for(fuel));
        lemma_outcome_is_unique(r, fuel + 1);
        lemma_outcome_is_unique(next, fuel);
    }
}

/// A write through a parameter whose address lies at or beyond the end of the
/// memory succeeds. The memory then ends with the written cell, every cell
/// that existed before keeps its value, and every cell between the old end
/// and the written cell holds zero.
pub proof fn lemma_write_beyond_end(m: Machine, offset: nat, mode: ParameterMode, value: i64)
    requires
        m.pc + offset < m.memory.len(),
        mode == ParameterMode::Position || mode == ParameterMode::Relative,
        addressable(m.address(offset, mode)),
        m.address(offset, mode) >= m.memory.len(),
    ensures
        m.write(offset, mode, value) is Some,
        ({
            let after = m.write(offset, mode, value).unwrap();
            let addr = m.address(offset, mode);
            &&& after.memory.len() == addr + 1
            &&& after.memory[addr] == value
            &&& forall|i: int| 0 <= i < m.memory.len() ==> after.memory[i] == m.memory[i]
            &&& forall|i: int| m.memory.len() <= i < addr ==> after.memory[i] == 0
            &&& after == Machine { memory: after.memory, ..m }
        }),
{
}

/// A read through a parameter whose address lies at or beyond the end of the
/// memory succeeds and yields zero. The memory then ends with the cell read,
/// every cell that existed before keeps its value, and every new cell holds
/// zero.
pub proof fn lemma_read_beyond_end(m: Machine, offset: nat, mode: ParameterMode)
    requires
        m.pc + offset < m.memory.len(),
        mode == ParameterMode::Position || mode == ParameterMode::Relative,
        addressable(m.address(offset, mode)),
        m.address(offset, mode) >= m.memory.len(),
    ensures
        m.read(offset, mode) is Some,
        ({
            let (value, after) = m.read(offset, mode).unwrap();
            let addr = m.address(offset, mode);
            &&& value == 0
            &&& after.memory.len() == addr + 1
            &&& forall|i: int| 0 <= i < m.memory.len() ==> after.memory[i] == m.memory[i]
            &&& forall|i: int| m.memory.len() <= i <= addr ==> after.memory[i] == 0
            &&& after == Machine { memory: after.memory, ..m }
        }),
{
}

} // verus!
