//! The execution engine.

use crate::error::{CompileError, RuntimeError};
use crate::fusion::optimized;
use crate::ir::{clean, compile, failure, open_count, optimize, translation, BrainfuckIR};
use crate::machine::{advance, fed, initial, step, Action, Effect, Machine};
use crate::nesting::{
    balanced, depth, is_jump_table, is_loop, lemma_jump_table_lookup, lemma_loop_unique,
    well_nested,
};
use std::collections::HashMap;
use vstd::prelude::*;

verus! {

/// The length of the tape of an engine made by [`VM::new`]: 4 MiB.
pub const MEMORY_SIZE: usize = 4 * 1024 * 1024;

/// An engine with its program, its tape, and the table of its jumps.
pub struct VM {
    code: Vec<BrainfuckIR>,
    memory: Vec<u8>,
    jumps: HashMap<usize, usize>,
    ptr: usize,
    pc: usize,
}

impl View for VM {
    type V = Machine;

    closed spec fn view(&self) -> Machine {
        Machine { tape: self.memory@, ptr: self.ptr as int, pc: self.pc as int }
    }
}

/// The `Jz` at `at` is open in front of the instruction at `i`, with
/// `level` loops open in front of it.
spec fn open_at(code: Seq<BrainfuckIR>, i: int, at: int, level: int) -> bool {
    &&& 0 <= at < i
    &&& code[at] is Jz
    &&& depth(code, at) == level
    &&& forall|k: int| at < k <= i ==> #[trigger] depth(code, k) > level
}

impl VM {
    /// The program of the engine.
    pub closed spec fn program(&self) -> Seq<BrainfuckIR> {
        self.code@
    }

    /// The table that the engine looks its jumps up in.
    pub closed spec fn table(&self) -> Map<usize, usize> {
        self.jumps@
    }

    /// The engine is fit to run: its program is balanced, its table is the
    /// jump table of its program, the data pointer is on the tape and the
    /// program counter within the program or at its end.
    pub open spec fn wf(&self) -> bool {
        &&& balanced(self.program())
        &&& is_jump_table(self.program(), self.table())
        &&& 0 <= self@.ptr < self@.tape.len()
        &&& 0 <= self@.pc <= self.program().len()
    }

    /// Translates `source`, optimizes the program if `optimize` is set, and
    /// makes an engine for it with a zeroed tape of `MEMORY_SIZE` cells.
    /// Where the text cannot be translated, the translator's failure is
    /// returned.
    pub fn new(source: &str, optimize: bool) -> (r: Result<VM, CompileError>)
        requires
            source@.len() < usize::MAX,
        ensures
            r is Ok <==> clean(source@) && open_count(source@, source@.len() as int) == 0,
            r matches Ok(vm) ==> {
                &&& vm.wf()
                &&& vm@ == initial(MEMORY_SIZE as nat)
                &&& vm.program() == if optimize {
                    optimized(translation(source@))
                } else {
                    translation(source@)
                }
            },
            r matches Err(e) ==> failure(source@, e),
    {
        VM::with_memory_size(source, optimize, MEMORY_SIZE)
    }

    /// As [`VM::new`], with a tape of `size` cells.
    pub fn with_memory_size(source: &str, optimize: bool, size: usize) -> (r: Result<
        VM,
        CompileError,
    >)
        requires
            source@.len() < usize::MAX,
            size >= 1,
        ensures
            r is Ok <==> clean(source@) && open_count(source@, source@.len() as int) == 0,
            r matches Ok(vm) ==> {
                &&& vm.wf()
                &&& vm@ == initial(size as nat)
                &&& vm.program() == if optimize {
                    optimized(translation(source@))
                } else {
                    translation(source@)
                }
            },
            r matches Err(e) ==> failure(source@, e),
    {
        let mut code = match compile(source) {
            Ok(code) => code,
            Err(e) => {
                return Err(e);
            },
        };
        if optimize {
            crate::ir::optimize(&mut code);
        }
        let memory = vec![0u8; size];
        let mut vm = VM { code, memory, jumps: HashMap::new(), ptr: 0, pc: 0 };
        let jumps = vm.mark_left_right();
        vm.jumps = jumps;
        assert(vm@.tape =~= initial(size as nat).tape);
        Ok(vm)
    }

    /// Pairs every `Jnz` of the program with the `Jz` that it closes, in
    /// one pass, and returns the table that maps each of the two to the
    /// other.
    pub fn mark_left_right(&self) -> (map: HashMap<usize, usize>)
        requires
            well_nested(self.program()),
        ensures
            is_jump_table(self.program(), map@),
    {
        broadcast use vstd::std_specs::hash::group_hash_axioms;

        let mut i: usize = 0;
        let mut stack: Vec<usize> = Vec::new();
        let mut map: HashMap<usize, usize> = HashMap::new();
        let ghost code = self.code@;
        while i < self.code.len()
            invariant
                code == self.code@,
                i <= code.len(),
                well_nested(code),
                stack@.len() == depth(code, i as int),
                forall|l: int|
                    0 <= l < stack@.len() ==> open_at(code, i as int, (#[trigger] stack@[l]) as int, l),
                forall|a: int, b: int| #[trigger]
                    is_loop(code, a, b) && b < i ==> {
                        &&& map@.contains_key(a as usize)
                        &&& map@[a as usize] == b
                        &&& map@.contains_key(b as usize)
                        &&& map@[b as usize] == a
                    },
                forall|k: usize| #[trigger]
                    map@.contains_key(k) ==> is_loop(code, k as int, map@[k] as int) || is_loop(
                        code,
                        map@[k] as int,
                        k as int,
                    ),
            decreases code.len() - i,
        {
            assert(depth(code, i + 1) == depth(code, i as int) + crate::nesting::delta(
                code[i as int],
            ));
            assert(depth(code, i + 1) >= 0);
            match self.code[i] {
                BrainfuckIR::Jz => {
                    stack.push(i);
                },
                BrainfuckIR::Jnz => {
                    match stack.pop() {
                        Some(left) => {
                            let ghost before = map@;
                            map.insert(left, i);
                            map.insert(i, left);
                            proof {
                                assert(is_loop(code, left as int, i as int));
                                assert forall|a: int, b: int| #[trigger]
                                    is_loop(code, a, b) && b < i + 1 implies {
                                    &&& map@.contains_key(a as usize)
                                    &&& map@[a as usize] == b
                                    &&& map@.contains_key(b as usize)
                                    &&& map@[b as usize] == a
                                } by {
                                    if b == i {
                                        lemma_loop_unique(code, a, b, left as int, i as int);
                                    } else if a == left {
                                        lemma_loop_unique(code, a, b, left as int, i as int);
                                    }
                                }
                            }
                        },
                        None => {
                            vstd::pervasive::unreached::<()>();
                        },
                    }
                },
                _ => {},
            }
            i = i + 1;
        }
        map
    }

    /// Executes instructions until the program ends, a byte of input is
    /// needed, a byte of output has been produced, a move fails, or `fuel`
    /// instructions have been executed without any of these.
    ///
    /// On `Action::Read` the program counter stays at the read, which
    /// [`VM::feed`] completes. A failing move changes nothing.
    pub fn run(&mut self, fuel: usize) -> (r: Result<Action, RuntimeError>)
        requires
            old(self).wf(),
        ensures
            final(self).wf(),
            final(self).program() == old(self).program(),
            (final(self)@, r) == advance(old(self).program(), old(self)@, fuel as nat),
    {
        broadcast use vstd::std_specs::hash::group_hash_axioms;

        let ghost code = self.code@;
        let ghost start = self@;
        let mut left = fuel;
        loop
            invariant
                self.wf(),
                self.code@ == code,
                code == old(self).program(),
                start == old(self)@,
                advance(code, self@, left as nat) == advance(code, start, fuel as nat),
            decreases left,
        {
            if self.pc >= self.code.len() {
                return Ok(Action::Halt);
            }
            let last = self.memory.len() - 1;
            match self.code[self.pc] {
                BrainfuckIR::Read => {
                    return Ok(Action::Read);
                },
                BrainfuckIR::Write => {
                    let byte = self.memory[self.ptr];
                    self.pc = self.pc + 1;
                    return Ok(Action::Write(byte));
                },
                BrainfuckIR::PtrAdd(n) => {
                    if self.ptr == last || n > last - self.ptr {
                        return Err(RuntimeError::Overflow);
                    }
                    if left == 0 {
                        return Ok(Action::Pause);
                    }
                    self.ptr = self.ptr + n;
                    self.pc = self.pc + 1;
                },
                BrainfuckIR::PtrSub(n) => {
                    if self.ptr == 0 || n > self.ptr {
                        return Err(RuntimeError::Overflow);
                    }
                    if left == 0 {
                        return Ok(Action::Pause);
                    }
                    self.ptr = self.ptr - n;
                    self.pc = self.pc + 1;
                },
                BrainfuckIR::Add(n) => {
                    if left == 0 {
                        return Ok(Action::Pause);
                    }
                    let cell = self.memory[self.ptr];
                    self.memory.set(self.ptr, cell.wrapping_add(n));
                    self.pc = self.pc + 1;
                },
                BrainfuckIR::Sub(n) => {
                    if left == 0 {
                        return Ok(Action::Pause);
                    }
                    let cell = self.memory[self.ptr];
                    self.memory.set(self.ptr, cell.wrapping_sub(n));
                    self.pc = self.pc + 1;
                },
                BrainfuckIR::Jz => {
                    if left == 0 {
                        return Ok(Action::Pause);
                    }
                    proof {
                        lemma_jump_table_lookup(code, self.jumps@, self.pc);
                    }
                    if self.memory[self.ptr] == 0 {
                        self.pc = *self.jumps.get(&self.pc).unwrap();
                    } else {
                        self.pc = self.pc + 1;
                    }
                },
                BrainfuckIR::Jnz => {
                    if left == 0 {
                        return Ok(Action::Pause);
                    }
                    proof {
                        lemma_jump_table_lookup(code, self.jumps@, self.pc);
                    }
                    if self.memory[self.ptr] != 0 {
                        self.pc = *self.jumps.get(&self.pc).unwrap();
                    } else {
                        self.pc = self.pc + 1;
                    }
                },
            }
            left = left - 1;
        }
    }

    /// Completes the read that the engine waits at: stores `byte` in the
    /// current cell and moves past the read. Where the engine does not
    /// stand in front of a read, nothing changes and the result is `false`.
    pub fn feed(&mut self, byte: u8) -> (accepted: bool)
        requires
            old(self).wf(),
        ensures
            final(self).wf(),
            final(self).program() == old(self).program(),
            accepted <==> step(old(self).program(), old(self)@) is Await,
            accepted ==> final(self)@ == fed(old(self)@, byte),
            !accepted ==> final(self)@ == old(self)@,
    {
        if self.pc >= self.code.len() {
            return false;
        }
        match self.code[self.pc] {
            BrainfuckIR::Read => {
                self.memory.set(self.ptr, byte);
                self.pc = self.pc + 1;
                true
            },
            _ => false,
        }
    }

    /// The program counter.
    pub fn pc(&self) -> (pc: usize)
        ensures
            pc == self@.pc,
    {
        self.pc
    }

    /// The data pointer.
    pub fn pointer(&self) -> (ptr: usize)
        ensures
            ptr == self@.ptr,
    {
        self.ptr
    }

    /// The tape.
    pub fn memory(&self) -> (tape: &Vec<u8>)
        ensures
            tape@ == self@.tape,
    {
        &self.memory
    }

    /// The program.
    pub fn code(&self) -> (code: &Vec<BrainfuckIR>)
        ensures
            code@ == self.program(),
    {
        &self.code
    }
}

} // verus!
