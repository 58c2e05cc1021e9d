//! Whole runs of a program on a given input, and the law that the optimizer
//! does not change them.

use crate::fusion::{
    alike, counted, lemma_loop_optimized, lemma_optimized_balanced, lemma_origin, lemma_run,
    lemma_run_fused_alike, optimized, origin, run_end, run_fused,
};
use crate::error::RuntimeError;
use crate::ir::{clean, faulty, instruction, open_count, translation, BrainfuckIR};
use crate::machine::{advance, fed, initial, step, Action, Effect, Machine};
use crate::nesting::{
    balanced, delta, depth, lemma_depth_of_prefix, lemma_partner, lemma_partner_is, partner,
    well_nested,
};
use vstd::prelude::*;

verus! {

/// How far a run has come.
pub enum Status {
    /// The run goes on.
    Running,
    /// The program counter has reached the end of the program.
    Halted,
    /// A move has failed.
    Overflow,
    /// A read has found the input at its end.
    EndOfInput,
}

/// A run of a program: the engine together with the input that is still
/// unread and the output that has been written.
pub struct Run {
    pub machine: Machine,
    pub input: Seq<u8>,
    pub output: Seq<u8>,
    pub status: Status,
}

/// What can be seen of a run from outside: how it stands, the tape, the
/// unread input and the output.
pub struct Observation {
    pub status: Status,
    pub tape: Seq<u8>,
    pub input: Seq<u8>,
    pub output: Seq<u8>,
}

/// The start of a run on a zeroed tape of `tape_len` cells.
pub open spec fn begin(tape_len: nat, input: Seq<u8>) -> Run {
    Run { machine: initial(tape_len), input, output: Seq::empty(), status: Status::Running }
}

/// One instruction of a run: a write appends to the output, a read takes
/// the first unread byte of the input and fails where there is none. A run
/// that has ended stays as it is.
pub open spec fn tick(code: Seq<BrainfuckIR>, r: Run) -> Run {
    if !(r.status is Running) {
        r
    } else {
        match step(code, r.machine) {
            Effect::Step(next) => Run { machine: next, ..r },
            Effect::Emit(next, byte) => Run { machine: next, output: r.output.push(byte), ..r },
            Effect::Await => if r.input.len() == 0 {
                Run { status: Status::EndOfInput, ..r }
            } else {
                Run { machine: fed(r.machine, r.input[0]), input: r.input.drop_first(), ..r }
            },
            Effect::Halt => Run { status: Status::Halted, ..r },
            Effect::Fault => Run { status: Status::Overflow, ..r },
        }
    }
}

/// The run after `n` more instructions.
pub open spec fn run_for(code: Seq<BrainfuckIR>, r: Run, n: nat) -> Run
    decreases n,
{
    if n == 0 {
        r
    } else {
        tick(code, run_for(code, r, (n - 1) as nat))
    }
}

/// What can be seen of the run `r`.
pub open spec fn observe(r: Run) -> Observation {
    Observation { status: r.status, tape: r.machine.tape, input: r.input, output: r.output }
}

/// The run after the caller of the engine has done what the engine asked
/// for when it stopped in state `m` with `result`: sent the written byte to
/// the output, or handed the first unread byte of the input to the read,
/// which fails where there is none.
pub open spec fn served(r: Run, m: Machine, result: Result<Action, RuntimeError>) -> Run {
    match result {
        Ok(Action::Halt) => Run { machine: m, status: Status::Halted, ..r },
        Ok(Action::Pause) => Run { machine: m, ..r },
        Ok(Action::Write(byte)) => Run { machine: m, output: r.output.push(byte), ..r },
        Ok(Action::Read) => if r.input.len() == 0 {
            Run { machine: m, status: Status::EndOfInput, ..r }
        } else {
            Run { machine: fed(m, r.input[0]), input: r.input.drop_first(), ..r }
        },
        Err(RuntimeError::Overflow) => Run { machine: m, status: Status::Overflow, ..r },
    }
}

/// The magnitude of an instruction that changes a cell.
pub open spec fn cell_magnitude(ir: BrainfuckIR) -> u8 {
    match ir {
        BrainfuckIR::Add(n) => n,
        BrainfuckIR::Sub(n) => n,
        _ => 0,
    }
}

/// The magnitude of an instruction that moves the data pointer.
pub open spec fn move_magnitude(ir: BrainfuckIR) -> usize {
    match ir {
        BrainfuckIR::PtrAdd(n) => n,
        BrainfuckIR::PtrSub(n) => n,
        _ => 0,
    }
}

/// Whether an instruction moves the data pointer.
pub open spec fn is_move(ir: BrainfuckIR) -> bool {
    ir is PtrAdd || ir is PtrSub
}

/// Every move of the program moves by one cell at least, and no run of
/// moves adds up to more than `usize::MAX`.
pub open spec fn plain_moves(s: Seq<BrainfuckIR>) -> bool {
    &&& forall|i: int| 0 <= i < s.len() && is_move(#[trigger] s[i]) ==> move_magnitude(s[i]) >= 1
    &&& forall|i: int, j: int|
        0 <= i < s.len() && is_move(s[i]) && i < j < run_end(s, i) ==> move_magnitude(
            #[trigger] run_fused(s, i, j),
        ) + move_magnitude(s[j]) <= usize::MAX
}

/// Every move of the program moves by exactly one cell.
pub open spec fn unit_moves(s: Seq<BrainfuckIR>) -> bool {
    forall|i: int| 0 <= i < s.len() && is_move(#[trigger] s[i]) ==> move_magnitude(s[i]) == 1
}

/// The run `a` of the program `s` and the run `b` of its optimized program
/// stand at the same point: they show the same, and while they go on the
/// data pointers agree and `a` stands where the run begins that the next
/// instruction of `b` stands for.
pub open spec fn in_step(s: Seq<BrainfuckIR>, a: Run, b: Run) -> bool {
    &&& observe(a) == observe(b)
    &&& a.machine.tape.len() >= 1
    &&& a.status is Running ==> {
        &&& a.machine.ptr == b.machine.ptr
        &&& 0 <= a.machine.ptr < a.machine.tape.len()
        &&& 0 <= b.machine.pc <= optimized(s).len()
        &&& a.machine.pc == origin(s, b.machine.pc)
    }
}

/// Running `m` instructions and then `n` more is running `m + n`.
pub proof fn lemma_run_for_add(code: Seq<BrainfuckIR>, r: Run, m: nat, n: nat)
    ensures
        run_for(code, r, m + n) == run_for(code, run_for(code, r, m), n),
    decreases n,
{
    if n > 0 {
        lemma_run_for_add(code, r, m, (n - 1) as nat);
        assert((m + n - 1) as nat == m + (n - 1) as nat);
    }
}

/// A run that has ended stays as it is.
pub proof fn lemma_ended_run_stays(code: Seq<BrainfuckIR>, r: Run, n: nat)
    requires
        !(r.status is Running),
    ensures
        run_for(code, r, n) == r,
    decreases n,
{
    if n > 0 {
        lemma_ended_run_stays(code, r, (n - 1) as nat);
    }
}

/// Letting the engine advance and serving what it asks for is a stretch of
/// the run: of `fuel` instructions and one more at most.
pub proof fn lemma_advance_is_run(code: Seq<BrainfuckIR>, r: Run, fuel: nat) -> (n: nat)
    requires
        r.status is Running,
    ensures
        n <= fuel + 1,
        run_for(code, r, n) == served(
            r,
            advance(code, r.machine, fuel).0,
            advance(code, r.machine, fuel).1,
        ),
    decreases fuel,
{
    assert(run_for(code, r, 0) == r);
    assert(run_for(code, r, 1) == tick(code, r));
    match step(code, r.machine) {
        Effect::Step(next) => {
            if fuel == 0 {
                0
            } else {
                let n = lemma_advance_is_run(code, tick(code, r), (fuel - 1) as nat);
                lemma_run_for_add(code, r, 1, n);
                1 + n
            }
        },
        _ => 1,
    }
}

/// A run of `Add` does to the current cell what its fused instruction does.
proof fn lemma_add_run(s: Seq<BrainfuckIR>, a: Run, o: int, j: int)
    requires
        0 <= o < s.len(),
        s[o] is Add,
        o < j <= run_end(s, o),
        a.status is Running,
        a.machine.pc == o,
        0 <= a.machine.ptr < a.machine.tape.len(),
    ensures
        run_for(s, a, (j - o) as nat) == (Run {
            machine: Machine {
                tape: a.machine.tape.update(
                    a.machine.ptr,
                    a.machine.tape[a.machine.ptr].wrapping_add(
                        cell_magnitude(run_fused(s, o, j)),
                    ),
                ),
                pc: j,
                ptr: a.machine.ptr,
            },
            ..a
        }),
        run_fused(s, o, j) is Add,
    decreases j - o,
{
    lemma_run(s, o);
    lemma_run_fused_alike(s, o, j);
    let ptr = a.machine.ptr;
    let t0 = a.machine.tape;
    if j == o + 1 {
        assert(run_for(s, a, 0) == a);
        assert(run_for(s, a, 1) == tick(s, a));
    } else {
        lemma_add_run(s, a, o, j - 1);
        let r1 = run_for(s, a, (j - 1 - o) as nat);
        assert(run_for(s, a, (j - o) as nat) == tick(s, r1));
        assert(alike(s[j - 1], s[o]));
        let t1 = r1.machine.tape;
        let v2 = t1[ptr].wrapping_add(cell_magnitude(s[j - 1]));
        assert(t1.update(ptr, v2) =~= t0.update(
            ptr,
            t0[ptr].wrapping_add(cell_magnitude(run_fused(s, o, j))),
        ));
    }
}

/// A run of `Sub` does to the current cell what its fused instruction does.
proof fn lemma_sub_run(s: Seq<BrainfuckIR>, a: Run, o: int, j: int)
    requires
        0 <= o < s.len(),
        s[o] is Sub,
        o < j <= run_end(s, o),
        a.status is Running,
        a.machine.pc == o,
        0 <= a.machine.ptr < a.machine.tape.len(),
    ensures
        run_for(s, a, (j - o) as nat) == (Run {
            machine: Machine {
                tape: a.machine.tape.update(
                    a.machine.ptr,
                    a.machine.tape[a.machine.ptr].wrapping_sub(
                        cell_magnitude(run_fused(s, o, j)),
                    ),
                ),
                pc: j,
                ptr: a.machine.ptr,
            },
            ..a
        }),
        run_fused(s, o, j) is Sub,
    decreases j - o,
{
    lemma_run(s, o);
    lemma_run_fused_alike(s, o, j);
    let ptr = a.machine.ptr;
    let t0 = a.machine.tape;
    if j == o + 1 {
        assert(run_for(s, a, 0) == a);
        assert(run_for(s, a, 1) == tick(s, a));
    } else {
        lemma_sub_run(s, a, o, j - 1);
        let r1 = run_for(s, a, (j - 1 - o) as nat);
        assert(run_for(s, a, (j - o) as nat) == tick(s, r1));
        assert(alike(s[j - 1], s[o]));
        let t1 = r1.machine.tape;
        let v2 = t1[ptr].wrapping_sub(cell_magnitude(s[j - 1]));
        assert(t1.update(ptr, v2) =~= t0.update(
            ptr,
            t0[ptr].wrapping_sub(cell_magnitude(run_fused(s, o, j))),
        ));
    }
}

/// A run of `PtrAdd` moves the data pointer as its fused instruction does,
/// and fails where that fails.
proof fn lemma_right_run(s: Seq<BrainfuckIR>, a: Run, o: int, j: int)
    requires
        0 <= o < s.len(),
        s[o] is PtrAdd,
        o < j <= run_end(s, o),
        plain_moves(s),
        a.status is Running,
        a.machine.pc == o,
        0 <= a.machine.ptr < a.machine.tape.len(),
    ensures
        run_fused(s, o, j) is PtrAdd,
        move_magnitude(run_fused(s, o, j)) >= j - o,
        a.machine.ptr + move_magnitude(run_fused(s, o, j)) <= a.machine.tape.len() - 1 ==> run_for(
            s,
            a,
            (j - o) as nat,
        ) == (Run {
            machine: Machine {
                ptr: a.machine.ptr + move_magnitude(run_fused(s, o, j)),
                pc: j,
                tape: a.machine.tape,
            },
            ..a
        }),
        a.machine.ptr + move_magnitude(run_fused(s, o, j)) > a.machine.tape.len() - 1 ==> observe(
            run_for(s, a, (j - o) as nat),
        ) == (Observation { status: Status::Overflow, ..observe(a) }),
    decreases j - o,
{
    lemma_run(s, o);
    lemma_run_fused_alike(s, o, j);
    assert(is_move(s[o]));
    if j == o + 1 {
        assert(run_for(s, a, 0) == a);
        assert(run_for(s, a, 1) == tick(s, a));
    } else {
        lemma_right_run(s, a, o, j - 1);
        lemma_run_fused_alike(s, o, j - 1);
        let r1 = run_for(s, a, (j - 1 - o) as nat);
        assert(run_for(s, a, (j - o) as nat) == tick(s, r1));
        assert(alike(s[j - 1], s[o]));
        assert(is_move(s[j - 1]));
        assert(move_magnitude(run_fused(s, o, j - 1)) + move_magnitude(s[j - 1]) <= usize::MAX);
    }
}

/// A run of `PtrSub` moves the data pointer as its fused instruction does,
/// and fails where that fails.
proof fn lemma_left_run(s: Seq<BrainfuckIR>, a: Run, o: int, j: int)
    requires
        0 <= o < s.len(),
        s[o] is PtrSub,
        o < j <= run_end(s, o),
        plain_moves(s),
        a.status is Running,
        a.machine.pc == o,
        0 <= a.machine.ptr < a.machine.tape.len(),
    ensures
        run_fused(s, o, j) is PtrSub,
        move_magnitude(run_fused(s, o, j)) >= j - o,
        move_magnitude(run_fused(s, o, j)) <= a.machine.ptr ==> run_for(s, a, (j - o) as nat) == (
        Run {
            machine: Machine {
                ptr: a.machine.ptr - move_magnitude(run_fused(s, o, j)),
                pc: j,
                tape: a.machine.tape,
            },
            ..a
        }),
        move_magnitude(run_fused(s, o, j)) > a.machine.ptr ==> observe(
            run_for(s, a, (j - o) as nat),
        ) == (Observation { status: Status::Overflow, ..observe(a) }),
    decreases j - o,
{
    lemma_run(s, o);
    lemma_run_fused_alike(s, o, j);
    assert(is_move(s[o]));
    if j == o + 1 {
        assert(run_for(s, a, 0) == a);
        assert(run_for(s, a, 1) == tick(s, a));
    } else {
        lemma_left_run(s, a, o, j - 1);
        lemma_run_fused_alike(s, o, j - 1);
        let r1 = run_for(s, a, (j - 1 - o) as nat);
        assert(run_for(s, a, (j - o) as nat) == tick(s, r1));
        assert(alike(s[j - 1], s[o]));
        assert(is_move(s[j - 1]));
        assert(move_magnitude(run_fused(s, o, j - 1)) + move_magnitude(s[j - 1]) <= usize::MAX);
    }
}

/// Where the two runs stand at an instruction that is not counted, one
/// instruction of each keeps them in step.
proof fn lemma_in_step_single(s: Seq<BrainfuckIR>, a: Run, b: Run)
    requires
        balanced(s),
        in_step(s, a, b),
        a.status is Running,
        b.machine.pc < optimized(s).len(),
        !counted(optimized(s)[b.machine.pc]),
    ensures
        in_step(s, tick(s, a), tick(optimized(s), b)),
{
    let t = optimized(s);
    let k = b.machine.pc;
    let o = origin(s, k);
    lemma_origin(s, k);
    lemma_origin(s, k + 1);
    lemma_run(s, o);
    lemma_optimized_balanced(s);
    assert(t[k] == s[o]);
    assert(origin(s, k + 1) == o + 1);
    if t[k] is Jz {
        lemma_partner(t, k);
        let p = partner(t, k);
        lemma_loop_optimized(s, k, p);
        lemma_partner_is(s, o, origin(s, p));
    } else if t[k] is Jnz {
        lemma_partner(t, k);
        let p = partner(t, k);
        lemma_loop_optimized(s, p, k);
        lemma_partner_is(s, o, origin(s, p));
    }
}

/// Where the two runs stand at a counted instruction of the optimized
/// program, that instruction and the run of `s` that it stands for keep
/// them in step.
proof fn lemma_in_step_counted(s: Seq<BrainfuckIR>, a: Run, b: Run) -> (c: nat)
    requires
        plain_moves(s),
        in_step(s, a, b),
        a.status is Running,
        b.machine.pc < optimized(s).len(),
        counted(optimized(s)[b.machine.pc]),
    ensures
        c >= 1,
        in_step(s, run_for(s, a, c), tick(optimized(s), b)),
{
    let t = optimized(s);
    let k = b.machine.pc;
    let o = origin(s, k);
    let e = origin(s, k + 1);
    lemma_origin(s, k);
    lemma_origin(s, k + 1);
    lemma_run(s, o);
    assert(e == run_end(s, o));
    assert(t[k] == run_fused(s, o, e));
    match s[o] {
        BrainfuckIR::Add(_) => {
            lemma_add_run(s, a, o, e);
        },
        BrainfuckIR::Sub(_) => {
            lemma_sub_run(s, a, o, e);
        },
        BrainfuckIR::PtrAdd(_) => {
            lemma_right_run(s, a, o, e);
        },
        BrainfuckIR::PtrSub(_) => {
            lemma_left_run(s, a, o, e);
        },
        _ => {},
    }
    (e - o) as nat
}

/// One instruction of the optimized program is matched by one or more of
/// the program itself.
proof fn lemma_in_step_next(s: Seq<BrainfuckIR>, a: Run, b: Run) -> (c: nat)
    requires
        balanced(s),
        plain_moves(s),
        in_step(s, a, b),
    ensures
        c >= 1,
        in_step(s, run_for(s, a, c), tick(optimized(s), b)),
{
    let t = optimized(s);
    assert(run_for(s, a, 0) == a);
    assert(run_for(s, a, 1) == tick(s, a));
    if !(a.status is Running) {
        1
    } else if b.machine.pc == t.len() {
        lemma_origin(s, b.machine.pc);
        1
    } else if counted(t[b.machine.pc]) {
        lemma_in_step_counted(s, a, b)
    } else {
        lemma_in_step_single(s, a, b);
        1
    }
}

/// However far the optimized program has run, the program itself comes to
/// stand in step with it, after at least as many instructions.
proof fn lemma_runs_in_step(s: Seq<BrainfuckIR>, tape_len: nat, input: Seq<u8>, m: nat) -> (n: nat)
    requires
        balanced(s),
        plain_moves(s),
        tape_len >= 1,
    ensures
        n >= m,
        in_step(
            s,
            run_for(s, begin(tape_len, input), n),
            run_for(optimized(s), begin(tape_len, input), m),
        ),
    decreases m,
{
    let r0 = begin(tape_len, input);
    if m == 0 {
        0
    } else {
        let n1 = lemma_runs_in_step(s, tape_len, input, (m - 1) as nat);
        let a = run_for(s, r0, n1);
        let b = run_for(optimized(s), r0, (m - 1) as nat);
        let c = lemma_in_step_next(s, a, b);
        lemma_run_for_add(s, r0, n1, c);
        n1 + c
    }
}

/// The optimizer does not change what a program does. On the same tape and
/// the same input, whatever can be seen of the optimized program after `m`
/// instructions (whether it still runs or how it has ended, the tape, the
/// unread input, the output) can be seen of the program itself after the
/// `n` instructions that the lemma returns.
///
/// This holds of balanced programs in which every move moves by one cell at
/// least and no run of moves adds up to more than `usize::MAX`.
pub proof fn lemma_optimized_runs_alike(
    s: Seq<BrainfuckIR>,
    tape_len: nat,
    input: Seq<u8>,
    m: nat,
) -> (n: nat)
    requires
        balanced(s),
        plain_moves(s),
        tape_len >= 1,
    ensures
        n >= m,
        observe(run_for(s, begin(tape_len, input), n)) == observe(
            run_for(optimized(s), begin(tape_len, input), m),
        ),
{
    lemma_runs_in_step(s, tape_len, input, m)
}

/// Where a program has ended after `n` instructions, its optimized program
/// has ended by then too, in the same way, with the same tape, the same
/// unread input and the same output.
pub proof fn lemma_optimized_ends_alike(
    s: Seq<BrainfuckIR>,
    tape_len: nat,
    input: Seq<u8>,
    n: nat,
)
    requires
        balanced(s),
        plain_moves(s),
        tape_len >= 1,
        !(run_for(s, begin(tape_len, input), n).status is Running),
    ensures
        observe(run_for(optimized(s), begin(tape_len, input), n)) == observe(
            run_for(s, begin(tape_len, input), n),
        ),
{
    let r0 = begin(tape_len, input);
    let later = lemma_runs_in_step(s, tape_len, input, n);
    lemma_run_for_add(s, r0, n, (later - n) as nat);
    lemma_ended_run_stays(s, run_for(s, r0, n), (later - n) as nat);
    assert(n + (later - n) as nat == later);
}

/// What stands for a part of a run of unit moves has the length of that
/// part as its magnitude.
proof fn lemma_unit_run(s: Seq<BrainfuckIR>, i: int, j: int)
    requires
        unit_moves(s),
        s.len() <= usize::MAX,
        0 <= i < s.len(),
        is_move(s[i]),
        i < j <= run_end(s, i),
    ensures
        move_magnitude(run_fused(s, i, j)) == j - i,
    decreases j - i,
{
    lemma_run(s, i);
    if j > i + 1 {
        lemma_unit_run(s, i, j - 1);
        lemma_run_fused_alike(s, i, j - 1);
        assert(alike(s[j - 1], s[i]));
        assert(is_move(s[j - 1]));
    }
}

/// A program of unit moves that a vector can hold has plain moves.
pub proof fn lemma_unit_moves_are_plain(s: Seq<BrainfuckIR>)
    requires
        unit_moves(s),
        s.len() <= usize::MAX,
    ensures
        plain_moves(s),
{
    assert forall|i: int, j: int|
        0 <= i < s.len() && is_move(s[i]) && i < j < run_end(s, i) implies move_magnitude(
        #[trigger] run_fused(s, i, j),
    ) + move_magnitude(s[j]) <= usize::MAX by {
        lemma_run(s, i);
        lemma_unit_run(s, i, j);
        assert(alike(s[j], s[i]));
        assert(is_move(s[j]));
    }
}

/// The translation of a clean text whose brackets pair up: it is as long as
/// the text at most, its moves are unit moves, it is well nested, and its
/// depth at the end is the number of brackets that the text leaves open.
pub proof fn lemma_translation_shape(s: Seq<char>, n: int)
    requires
        0 <= n <= s.len(),
        forall|j: int| 0 <= j < n ==> !faulty(s, j),
    ensures
        translation(s.take(n)).len() <= n,
        unit_moves(translation(s.take(n))),
        well_nested(translation(s.take(n))),
        depth(translation(s.take(n)), translation(s.take(n)).len() as int) == open_count(s, n),
    decreases n,
{
    if n == 0 {
        assert(s.take(0) =~= Seq::<char>::empty());
    } else {
        lemma_translation_shape(s, n - 1);
        let before = translation(s.take(n - 1));
        let after = translation(s.take(n));
        assert(s.take(n).drop_last() =~= s.take(n - 1));
        assert(!faulty(s, n - 1));
        if s[n - 1] != '\n' {
            let ir = instruction(s[n - 1]);
            assert(after == before.push(ir));
            assert forall|k: int| 0 <= k <= after.len() implies #[trigger] depth(after, k) >= 0 by {
                if k <= before.len() {
                    lemma_depth_of_prefix(after, before, k);
                } else {
                    lemma_depth_of_prefix(after, before, k - 1);
                    assert(depth(after, k) == depth(after, k - 1) + delta(after[k - 1]));
                }
            }
            lemma_depth_of_prefix(after, before, before.len() as int);
            assert(depth(after, after.len() as int) == depth(after, after.len() - 1) + delta(
                after[after.len() - 1],
            ));
            assert forall|i: int| 0 <= i < after.len() && is_move(#[trigger] after[i]) implies move_magnitude(after[i]) == 1 by {
                if i < before.len() {
                    assert(after[i] == before[i]);
                }
            }
        }
    }
}

/// The law for programs that come from source text: where the translator
/// accepts a text, optimizing its translation does not change what it does.
pub proof fn lemma_compiled_optimized_runs_alike(
    source: Seq<char>,
    tape_len: nat,
    input: Seq<u8>,
    m: nat,
) -> (n: nat)
    requires
        clean(source),
        open_count(source, source.len() as int) == 0,
        source.len() <= usize::MAX,
        tape_len >= 1,
    ensures
        n >= m,
        observe(run_for(translation(source), begin(tape_len, input), n)) == observe(
            run_for(optimized(translation(source)), begin(tape_len, input), m),
        ),
{
    lemma_translation_shape(source, source.len() as int);
    assert(source.take(source.len() as int) =~= source);
    lemma_unit_moves_are_plain(translation(source));
    lemma_optimized_runs_alike(translation(source), tape_len, input, m)
}

} // verus!
