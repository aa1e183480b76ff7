//! The executable virtual machine.

use std::collections::VecDeque;
use vstd::prelude::*;
use crate::decode::{Instruction, OpCode, ParameterMode};
use crate::machine::{zero_filled, Machine, ProgramState};

verus! {

const LEN_IO_INSTR: usize = 2;

const LEN_BASE_INSTR: usize = 2;

const LEN_JUMP_INSTR: usize = 3;

const LEN_ARITH_INSTR: usize = 4;

/// An Intcode machine: a growable memory, an input and an output queue, a
/// program counter and a relative base.
#[derive(Debug)]
pub struct IntComputer {
    pub program: Vec<i64>,
    pub input: VecDeque<i64>,
    pub output: VecDeque<i64>,
    pub base: i64,
    pub pc: usize,
    pub state: ProgramState,
}

impl View for IntComputer {
    type V = Machine;

    open spec fn view(&self) -> Machine {
        Machine {
            memory: self.program@,
            pc: self.pc as nat,
            base: self.base as int,
            input: self.input@,
            output: self.output@,
            state: self.state,
        }
    }
}

impl IntComputer {
    /// A machine that has `program` as its memory and is ready to run from
    /// cell zero, with empty queues.
    pub fn new(program: Vec<i64>) -> (computer: IntComputer)
        ensures
            computer@ == Machine::boot(program@),
    {
        IntComputer {
            program: program,
            pc: 0,
            base: 0,
            input: VecDeque::new(),
            output: VecDeque::new(),
            state: ProgramState::Running,
        }
    }

    /// Appends `value` to the tail of the input queue.
    pub fn push_input(&mut self, value: i64)
        ensures
            final(self)@ == old(self)@.with_input(value),
    {
        self.input.push_back(value);
    }

    /// Removes and returns the oldest value of the output queue.
    pub fn pop_output(&mut self) -> (value: i64)
        requires
            old(self)@.output.len() > 0,
        ensures
            value == old(self)@.output[0],
            final(self)@ == old(self)@.without_first_output(),
    {
        match self.output.pop_front() {
            Some(value) => value,
            None => vstd::pervasive::unreached(),
        }
    }

    /// Runs until the machine halts or blocks on an empty input queue. A
    /// finished machine is left as it is.
    pub fn run(&mut self)
        requires
            old(self)@.run_settles(),
        ensures
            final(self)@ == old(self)@.run_outcome(),
    {
        if self.state == ProgramState::Finished {
            return ;
        }
        self.state = ProgramState::Running;
        let ghost start = self@;
        let ghost mut fuel: nat = choose|f: nat| (#[trigger] start.run_for(f)) is Some;
        proof {
            crate::machine::lemma_outcome_is_unique(start, fuel);
        }
        while self.state == ProgramState::Running
            invariant
                self@.run_for(fuel) == Some(start.outcome()),
            decreases fuel,
        {
            self.exec_instr();
            proof {
                fuel = (fuel - 1) as nat;
            }
        }
    }

    /// Executes the instruction at the program counter.
    fn exec_instr(&mut self)
        requires
            old(self)@.step() is Some,
        ensures
            Some(final(self)@) == old(self)@.step(),
    {
        let opcode = OpCode::new(self.program[self.pc]);

        match opcode.instr {
            Instruction::Add | Instruction::Multiply | Instruction::Less | Instruction::Equal => {
                self.arith(opcode);
            },
            Instruction::Input | Instruction::Output => {
                self.io(opcode);
            },
            Instruction::JumpF | Instruction::JumpT => {
                self.jump(opcode);
            },
            Instruction::AdjBase => {
                self.adjust_base(opcode);
            },
            Instruction::Halt => {
                self.state = ProgramState::Finished;
            },
        }
    }

    /// Handles the input and output instructions.
    fn io(&mut self, opcode: OpCode)
        requires
            old(self)@.io(opcode) is Some,
        ensures
            Some(final(self)@) == old(self)@.io(opcode),
    {
        let (mode1, _, _) = opcode.param_mode;
        match opcode.instr {
            Instruction::Input => {
                match self.input.pop_front() {
                    None => {
                        self.state = ProgramState::WaitingForInput;
                        return ;
                    },
                    Some(input) => {
                        self.write(1, mode1, input);
                    },
                }
            },
            Instruction::Output => {
                let output = self.read(1, mode1);
                self.output.push_back(output);
            },
            _ => {},
        }
        assert(self.program@.len() == self.program.len());
        self.pc += LEN_IO_INSTR;
    }

    /// Adds the operand to the relative base.
    fn adjust_base(&mut self, opcode: OpCode)
        requires
            old(self)@.adjust_base(opcode) is Some,
        ensures
            Some(final(self)@) == old(self)@.adjust_base(opcode),
    {
        let (mode1, _, _) = opcode.param_mode;
        let val = self.read(1, mode1);
        self.base += val;
        assert(self.program@.len() == self.program.len());
        self.pc += LEN_BASE_INSTR;
    }

    /// Handles the two conditional jumps.
    fn jump(&mut self, opcode: OpCode)
        requires
            old(self)@.jump(opcode) is Some,
        ensures
            Some(final(self)@) == old(self)@.jump(opcode),
    {
        let (mode1, mode2, _) = opcode.param_mode;
        let val = self.read(1, mode1);
        let dst = self.read(2, mode2);

        let taken = (opcode.instr == Instruction::JumpT && val != 0) || (opcode.instr
            == Instruction::JumpF && val == 0);
        if taken && 0 <= dst && (dst as u64) < (self.program.len() as u64) {
            self.pc = dst as usize;
        } else {
            assert(self.program@.len() == self.program.len());
        self.pc += LEN_JUMP_INSTR;
        }
    }

    /// Handles addition, multiplication and the two comparisons.
    fn arith(&mut self, opcode: OpCode)
        requires
            old(self)@.arith(opcode) is Some,
        ensures
            Some(final(self)@) == old(self)@.arith(opcode),
    {
        let (mode1, mode2, mode3) = opcode.param_mode;
        let op1 = self.read(1, mode1);
        let op2 = self.read(2, mode2);

        let result: i64 = match opcode.instr {
            Instruction::Add => op1 + op2,
            Instruction::Multiply => op1 * op2,
            Instruction::Less => if op1 < op2 {
                1
            } else {
                0
            },
            Instruction::Equal => if op1 == op2 {
                1
            } else {
                0
            },
            _ => 0,
        };

        self.write(3, mode3, result);
        assert(self.program@.len() == self.program.len());
        self.pc += LEN_ARITH_INSTR;
    }

    /// Writes `value` to the cell that the parameter at `offset` designates
    /// under `mode`, growing the memory where the cell lies beyond its end.
    fn write(&mut self, offset: usize, mode: ParameterMode, value: i64)
        requires
            old(self)@.write(offset as nat, mode, value) is Some,
        ensures
            Some(final(self)@) == old(self)@.write(offset as nat, mode, value),
    {
        assert(self.program@.len() == self.program.len());
        let val = self.program[self.pc + offset];
        let idx: usize = match mode {
            ParameterMode::Position => val as usize,
            ParameterMode::Relative => (self.base + val) as usize,
            _ => vstd::pervasive::unreached(),
        };
        if idx >= self.program.len() {
            self.extend_capacity(idx);
        }
        self.program[idx] = value;
    }

    /// Reads the parameter at `offset` under `param_mode`: the operand itself,
    /// or the cell it designates, growing the memory where that cell lies
    /// beyond its end.
    fn read(&mut self, offset: usize, param_mode: ParameterMode) -> (value: i64)
        requires
            old(self)@.read(offset as nat, param_mode) is Some,
        ensures
            Some((value, final(self)@)) == old(self)@.read(offset as nat, param_mode),
    {
        assert(self.program@.len() == self.program.len());
        let val = self.program[self.pc + offset];
        let idx: usize = match param_mode {
            ParameterMode::Immediate => {
                return val;
            },
            ParameterMode::Position => val as usize,
            ParameterMode::Relative => (self.base + val) as usize,
            ParameterMode::Invalid => vstd::pervasive::unreached(),
        };
        if idx >= self.program.len() {
            self.extend_capacity(idx);
        }
        self.program[idx]
    }

    /// Makes room for reads and writes at `offset`, beyond the current end of
    /// the memory: the new cells hold zero.
    fn extend_capacity(&mut self, offset: usize)
        requires
            old(self)@.memory.len() <= offset < usize::MAX,
        ensures
            final(self)@ == (Machine {
                memory: zero_filled(old(self)@.memory, (offset + 1) as nat),
                ..old(self)@
            }),
    {
        let missing: usize = 1 + offset - self.program.len();
        let mut extra_capacity: Vec<i64> = vec![0; missing];
        assert(extra_capacity@ =~= Seq::new(missing as nat, |i: int| 0i64));
        self.program.append(&mut extra_capacity);
    }
}

} // verus!
