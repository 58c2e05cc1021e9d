//! What executing a program means: the state of the engine and its steps.

use crate::error::RuntimeError;
use crate::ir::BrainfuckIR;
use crate::nesting::partner;
use vstd::prelude::*;

verus! {

/// The state of the engine: the tape, the data pointer and the program
/// counter.
pub struct Machine {
    pub tape: Seq<u8>,
    pub ptr: int,
    pub pc: int,
}

/// What the engine asks of its caller when it stops.
#[derive(Debug, Clone, Copy, PartialEq, Eq, Structural)]
pub enum Action {
    /// The program counter has reached the end of the program.
    Halt,
    /// The next instruction reads: hand a byte of input to `feed`.
    Read,
    /// The engine has executed a write: send this byte to the output.
    Write(u8),
    /// The engine has used up its steps; nothing is asked for.
    Pause,
}

/// What executing one instruction does.
pub enum Effect {
    /// The engine moves on to this state by itself.
    Step(Machine),
    /// The engine moves on to this state and sends the byte to the output.
    Emit(Machine, u8),
    /// The engine waits for a byte of input.
    Await,
    /// The program counter is at the end of the program.
    Halt,
    /// The data pointer would leave the tape.
    Fault,
}

/// The state in which every run begins: all cells zero, the data pointer
/// and the program counter at 0.
pub open spec fn initial(tape_len: nat) -> Machine {
    Machine { tape: Seq::new(tape_len, |i: int| 0u8), ptr: 0, pc: 0 }
}

/// The effect of the instruction that the program counter stands at.
///
/// A move fails where the data pointer stands at the edge that it moves
/// towards, or where it would pass that edge.
pub open spec fn step(code: Seq<BrainfuckIR>, m: Machine) -> Effect {
    if m.pc < 0 || m.pc >= code.len() {
        Effect::Halt
    } else {
        match code[m.pc] {
            BrainfuckIR::Add(n) => Effect::Step(
                Machine {
                    tape: m.tape.update(m.ptr, m.tape[m.ptr].wrapping_add(n)),
                    pc: m.pc + 1,
                    ..m
                },
            ),
            BrainfuckIR::Sub(n) => Effect::Step(
                Machine {
                    tape: m.tape.update(m.ptr, m.tape[m.ptr].wrapping_sub(n)),
                    pc: m.pc + 1,
                    ..m
                },
            ),
            BrainfuckIR::PtrAdd(n) => if m.ptr == m.tape.len() - 1 || n > m.tape.len() - 1 - m.ptr {
                Effect::Fault
            } else {
                Effect::Step(Machine { ptr: m.ptr + n, pc: m.pc + 1, ..m })
            },
            BrainfuckIR::PtrSub(n) => if m.ptr == 0 || n > m.ptr {
                Effect::Fault
            } else {
                Effect::Step(Machine { ptr: m.ptr - n, pc: m.pc + 1, ..m })
            },
            BrainfuckIR::Write => Effect::Emit(Machine { pc: m.pc + 1, ..m }, m.tape[m.ptr]),
            BrainfuckIR::Read => Effect::Await,
            BrainfuckIR::Jz => Effect::Step(
                Machine {
                    pc: if m.tape[m.ptr] == 0 {
                        partner(code, m.pc)
                    } else {
                        m.pc + 1
                    },
                    ..m
                },
            ),
            BrainfuckIR::Jnz => Effect::Step(
                Machine {
                    pc: if m.tape[m.ptr] != 0 {
                        partner(code, m.pc)
                    } else {
                        m.pc + 1
                    },
                    ..m
                },
            ),
        }
    }
}

/// The state after a read has stored `byte` in the current cell.
pub open spec fn fed(m: Machine, byte: u8) -> Machine {
    Machine { tape: m.tape.update(m.ptr, byte), pc: m.pc + 1, ..m }
}

/// Where the engine stops, and with what, when it may take `fuel` steps by
/// itself: at the end of the program, in front of a read, behind a write,
/// at a move that fails, or in front of a step that it has no fuel for.
pub open spec fn advance(code: Seq<BrainfuckIR>, m: Machine, fuel: nat) -> (
    Machine,
    Result<Action, RuntimeError>,
)
    decreases fuel,
{
    match step(code, m) {
        Effect::Halt => (m, Ok(Action::Halt)),
        Effect::Await => (m, Ok(Action::Read)),
        Effect::Fault => (m, Err(RuntimeError::Overflow)),
        Effect::Emit(next, byte) => (next, Ok(Action::Write(byte))),
        Effect::Step(next) => if fuel == 0 {
            (m, Ok(Action::Pause))
        } else {
            advance(code, next, (fuel - 1) as nat)
        },
    }
}

} // verus!
