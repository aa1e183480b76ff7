//! Decoding of raw instruction words into an operation and its parameter modes.

use vstd::prelude::*;

verus! {

/// The operations of the instruction set.
#[derive(Debug, PartialEq, Eq, Structural, Clone, Copy)]
pub enum Instruction {
    Add,
    Multiply,
    Input,
    Output,
    Halt,
    JumpT,
    JumpF,
    Less,
    Equal,
    AdjBase,
}

/// How an instruction operand is turned into a value or an address.
#[derive(Debug, PartialEq, Eq, Structural, Clone, Copy)]
pub enum ParameterMode {
    Position,
    Immediate,
    Relative,
    Invalid,
}

/// A decoded instruction word: the operation and one mode per parameter slot.
#[derive(Debug, Clone, Copy)]
pub struct OpCode {
    pub instr: Instruction,
    pub param_mode: (ParameterMode, ParameterMode, ParameterMode),
}

/// The mode selected by one decimal digit of an instruction word.
pub open spec fn mode_of_digit(digit: int) -> ParameterMode {
    if digit == 0 {
        ParameterMode::Position
    } else if digit == 1 {
        ParameterMode::Immediate
    } else if digit == 2 {
        ParameterMode::Relative
    } else {
        ParameterMode::Invalid
    }
}

/// The operation named by the low two decimal digits of an instruction word,
/// or `None` when those digits name no operation.
pub open spec fn instruction_of_code(code: int) -> Option<Instruction> {
    if code == 1 {
        Some(Instruction::Add)
    } else if code == 2 {
        Some(Instruction::Multiply)
    } else if code == 3 {
        Some(Instruction::Input)
    } else if code == 4 {
        Some(Instruction::Output)
    } else if code == 5 {
        Some(Instruction::JumpT)
    } else if code == 6 {
        Some(Instruction::JumpF)
    } else if code == 7 {
        Some(Instruction::Less)
    } else if code == 8 {
        Some(Instruction::Equal)
    } else if code == 9 {
        Some(Instruction::AdjBase)
    } else if code == 99 {
        Some(Instruction::Halt)
    } else {
        None
    }
}

/// The number of memory cells an instruction occupies, itself included.
pub open spec fn width(instr: Instruction) -> nat {
    match instr {
        Instruction::Add | Instruction::Multiply | Instruction::Less | Instruction::Equal => 4,
        Instruction::JumpT | Instruction::JumpF => 3,
        Instruction::Input | Instruction::Output | Instruction::AdjBase => 2,
        Instruction::Halt => 1,
    }
}

/// The meaning of an instruction word. The low two decimal digits select the
/// operation; the hundreds, thousands and ten-thousands digits select the
/// modes of the first, second and third parameter. A negative word, or one
/// whose low digits name no operation, decodes to `None`.
pub open spec fn decode(word: int) -> Option<OpCode> {
    if word < 0 {
        None
    } else {
        match instruction_of_code(word % 100) {
            Some(instr) => Some(
                OpCode {
                    instr,
                    param_mode: (
                        mode_of_digit((word / 100) % 10),
                        mode_of_digit((word / 1000) % 10),
                        mode_of_digit((word / 10000) % 10),
                    ),
                },
            ),
            None => None,
        }
    }
}

fn read_mode(flag: i64) -> (mode: ParameterMode)
    requires
        flag >= 0,
    ensures
        mode == mode_of_digit(flag as int % 10),
{
    let digit: i64 = flag % 10;
    if digit == 0 {
        ParameterMode::Position
    } else if digit == 1 {
        ParameterMode::Immediate
    } else if digit == 2 {
        ParameterMode::Relative
    } else {
        ParameterMode::Invalid
    }
}

impl OpCode {
    /// Parses the operation and the mode flags out of an instruction word.
    pub fn new(opcode: i64) -> (op: OpCode)
        requires
            decode(opcode as int) is Some,
        ensures
            Some(op) == decode(opcode as int),
    {
        let mode1 = read_mode(opcode / 100);
        let mode2 = read_mode(opcode / 1000);
        let mode3 = read_mode(opcode / 10000);

        let operation: i64 = opcode % 100;
        let instr = if operation == 1 {
            Instruction::Add
        } else if operation == 2 {
            Instruction::Multiply
        } else if operation == 3 {
            Instruction::Input
        } else if operation == 4 {
            Instruction::Output
        } else if operation == 5 {
            Instruction::JumpT
        } else if operation == 6 {
            Instruction::JumpF
        } else if operation == 7 {
            Instruction::Less
        } else if operation == 8 {
            Instruction::Equal
        } else if operation == 9 {
            Instruction::AdjBase
        } else if operation == 99 {
            Instruction::Halt
        } else {
            vstd::pervasive::unreached()
        };

        OpCode { instr, param_mode: (mode1, mode2, mode3) }
    }
}

} // verus!
