//! Runs of counted instructions, and the program that fusing every run gives.

use crate::ir::{fused, fusible, BrainfuckIR};
use crate::nesting::{balanced, delta, depth, is_loop};
use vstd::prelude::*;

verus! {

/// Whether two instructions are of the same variant.
pub open spec fn alike(a: BrainfuckIR, b: BrainfuckIR) -> bool {
    match (a, b) {
        (BrainfuckIR::Add(_), BrainfuckIR::Add(_)) => true,
        (BrainfuckIR::Sub(_), BrainfuckIR::Sub(_)) => true,
        (BrainfuckIR::PtrAdd(_), BrainfuckIR::PtrAdd(_)) => true,
        (BrainfuckIR::PtrSub(_), BrainfuckIR::PtrSub(_)) => true,
        (BrainfuckIR::Write, BrainfuckIR::Write) => true,
        (BrainfuckIR::Read, BrainfuckIR::Read) => true,
        (BrainfuckIR::Jz, BrainfuckIR::Jz) => true,
        (BrainfuckIR::Jnz, BrainfuckIR::Jnz) => true,
        _ => false,
    }
}

/// Whether an instruction carries a magnitude.
pub open spec fn counted(a: BrainfuckIR) -> bool {
    a is Add || a is Sub || a is PtrAdd || a is PtrSub
}

/// Where the run that starts at `i` ends (exclusive): the run goes on as
/// long as each instruction is fusible with the one in front of it.
pub open spec fn run_end(s: Seq<BrainfuckIR>, i: int) -> int
    decreases s.len() - i,
{
    if 0 <= i && i + 1 < s.len() && fusible(s[i], s[i + 1]) {
        run_end(s, i + 1)
    } else {
        i + 1
    }
}

/// The one instruction that stands for the instructions from `i` up to
/// `j` (exclusive) of a run.
pub open spec fn run_fused(s: Seq<BrainfuckIR>, i: int, j: int) -> BrainfuckIR
    decreases j - i,
{
    if j <= i + 1 {
        s[i]
    } else {
        fused(run_fused(s, i, j - 1), s[j - 1])
    }
}

/// The instructions from `i` on with every run fused into one instruction.
pub open spec fn optimized_from(s: Seq<BrainfuckIR>, i: int) -> Seq<BrainfuckIR>
    decreases s.len() - i,
    via optimized_from_terminates
{
    if i < 0 || i >= s.len() {
        Seq::empty()
    } else {
        seq![run_fused(s, i, run_end(s, i))] + optimized_from(s, run_end(s, i))
    }
}

#[via_fn]
proof fn optimized_from_terminates(s: Seq<BrainfuckIR>, i: int) {
    if 0 <= i < s.len() {
        lemma_run(s, i);
    }
}

/// The program with every run of counted instructions of one variant fused
/// into a single instruction; all other instructions stay as they are, in
/// their order.
pub open spec fn optimized(s: Seq<BrainfuckIR>) -> Seq<BrainfuckIR> {
    optimized_from(s, 0)
}

/// From `i` on, no instruction is fusible with the one in front of it.
pub open spec fn compact_from(s: Seq<BrainfuckIR>, i: int) -> bool {
    forall|k: int| i <= k && k + 1 < s.len() ==> !fusible(#[trigger] s[k], s[k + 1])
}

/// No two neighbours are fusible: there is nothing left for the optimizer.
pub open spec fn compact(s: Seq<BrainfuckIR>) -> bool {
    compact_from(s, 0)
}

/// Where in `s` the run begins that instruction `k` of `optimized(s)`
/// stands for.
pub open spec fn origin(s: Seq<BrainfuckIR>, k: int) -> int
    decreases k,
{
    if k <= 0 {
        0
    } else {
        run_end(s, origin(s, k - 1))
    }
}

/// A run is not empty, lies within the program, holds instructions of one
/// variant only, is of counted instructions if it is longer than one, and
/// ends where the next instruction is not fusible.
pub proof fn lemma_run(s: Seq<BrainfuckIR>, i: int)
    requires
        0 <= i < s.len(),
    ensures
        i < run_end(s, i) <= s.len(),
        forall|k: int| i <= k < run_end(s, i) ==> alike(#[trigger] s[k], s[i]),
        run_end(s, i) > i + 1 ==> counted(s[i]) && fusible(s[i], s[i + 1]),
        run_end(s, i) < s.len() ==> !fusible(s[run_end(s, i) - 1], s[run_end(s, i)]),
    decreases s.len() - i,
{
    if i + 1 < s.len() && fusible(s[i], s[i + 1]) {
        lemma_run(s, i + 1);
        assert forall|k: int| i <= k < run_end(s, i) implies alike(#[trigger] s[k], s[i]) by {
            if k > i {
                assert(alike(s[k], s[i + 1]));
            }
        }
    }
}

/// What stands for a part of a run is of the run's variant.
pub proof fn lemma_run_fused_alike(s: Seq<BrainfuckIR>, i: int, j: int)
    requires
        0 <= i < j <= run_end(s, i),
        i < s.len(),
    ensures
        alike(run_fused(s, i, j), s[i]),
    decreases j - i,
{
    lemma_run(s, i);
    if j > i + 1 {
        lemma_run_fused_alike(s, i, j - 1);
        assert(alike(s[j - 1], s[i]));
    }
}

/// The optimized program, instruction by instruction: instruction `k`
/// stands for the run of `s` from `origin(s, k)` to `origin(s, k + 1)`, and
/// the runs cover `s` from its first instruction to its last.
pub proof fn lemma_origin(s: Seq<BrainfuckIR>, k: int)
    requires
        0 <= k <= optimized(s).len(),
    ensures
        0 <= origin(s, k) <= s.len(),
        optimized_from(s, origin(s, k)) == optimized(s).skip(k),
        k < optimized(s).len() ==> origin(s, k) < s.len() && origin(s, k) < origin(s, k + 1)
            <= s.len() && optimized(s)[k] == run_fused(s, origin(s, k), origin(s, k + 1)) && alike(
            optimized(s)[k],
            s[origin(s, k)],
        ),
        k == optimized(s).len() ==> origin(s, k) == s.len(),
    decreases k,
{
    let t = optimized(s);
    if k == 0 {
        assert(t.skip(0) =~= t);
    } else {
        lemma_origin(s, k - 1);
        let o = origin(s, k - 1);
        lemma_run(s, o);
        assert(t.skip(k - 1).skip(1) =~= t.skip(k));
        assert(optimized_from(s, o).skip(1) =~= optimized_from(s, run_end(s, o)));
    }
    let o = origin(s, k);
    if k < t.len() {
        assert(t.skip(k).len() > 0);
        lemma_run(s, o);
        lemma_run_fused_alike(s, o, run_end(s, o));
        assert(t.skip(k)[0] == t[k]);
    } else {
        assert(t.skip(k).len() == 0);
    }
}

/// The origins of the optimized program's instructions go up.
pub proof fn lemma_origin_increases(s: Seq<BrainfuckIR>, k: int, l: int)
    requires
        0 <= k <= l <= optimized(s).len(),
    ensures
        origin(s, k) <= origin(s, l),
        k < l ==> origin(s, k) < origin(s, l),
    decreases l - k,
{
    if k < l {
        lemma_origin(s, l - 1);
        lemma_origin_increases(s, k, l - 1);
    }
}

/// The optimized program is no longer than the program that it stands for,
/// and as long only where nothing is fusible.
pub proof fn lemma_optimized_len(s: Seq<BrainfuckIR>, i: int)
    requires
        0 <= i <= s.len(),
    ensures
        optimized_from(s, i).len() <= s.len() - i,
        optimized_from(s, i).len() == s.len() - i <==> compact_from(s, i),
    decreases s.len() - i,
{
    if i < s.len() {
        lemma_run(s, i);
        let e = run_end(s, i);
        lemma_optimized_len(s, e);
        if e == i + 1 {
            if compact_from(s, i + 1) && (i + 1 < s.len() ==> !fusible(s[i], s[i + 1])) {
                assert(compact_from(s, i));
            }
            if compact_from(s, i) {
                assert(compact_from(s, i + 1));
            }
        } else {
            assert(fusible(s[i], s[i + 1]));
        }
    }
}

/// A program in which nothing is fusible is its own optimized program.
pub proof fn lemma_compact_is_fixed(t: Seq<BrainfuckIR>, i: int)
    requires
        compact(t),
        0 <= i <= t.len(),
    ensures
        optimized_from(t, i) == t.skip(i),
    decreases t.len() - i,
{
    if i < t.len() {
        lemma_compact_is_fixed(t, i + 1);
        if i + 1 < t.len() {
            assert(!fusible(t[i], t[i + 1]));
        }
        assert(seq![t[i]] + t.skip(i + 1) =~= t.skip(i));
    } else {
        assert(t.skip(i) =~= Seq::<BrainfuckIR>::empty());
    }
}

/// In the optimized program nothing is fusible.
pub proof fn lemma_optimized_is_compact(s: Seq<BrainfuckIR>)
    ensures
        compact(optimized(s)),
{
    let t = optimized(s);
    assert forall|k: int| 0 <= k && k + 1 < t.len() implies !fusible(#[trigger] t[k], t[k + 1]) by {
        lemma_origin(s, k);
        lemma_origin(s, k + 1);
        let o = origin(s, k);
        let e = origin(s, k + 1);
        lemma_run(s, o);
        assert(alike(s[e - 1], s[o]));
    }
}

/// Optimizing twice gives what optimizing once gives.
pub proof fn lemma_optimize_idempotent(s: Seq<BrainfuckIR>)
    ensures
        optimized(optimized(s)) == optimized(s),
{
    lemma_optimized_is_compact(s);
    lemma_compact_is_fixed(optimized(s), 0);
    assert(optimized(s).skip(0) =~= optimized(s));
}

/// The depth does not change along instructions that are no jumps.
pub proof fn lemma_depth_flat(s: Seq<BrainfuckIR>, i: int, j: int)
    requires
        0 <= i <= j <= s.len(),
        forall|k: int| i <= k < j ==> delta(#[trigger] s[k]) == 0,
    ensures
        depth(s, j) == depth(s, i),
    decreases j - i,
{
    if i < j {
        lemma_depth_flat(s, i, j - 1);
    }
}

/// The depth does not change within a run.
pub proof fn lemma_depth_in_run(s: Seq<BrainfuckIR>, i: int, x: int)
    requires
        0 <= i < s.len(),
        i <= x < run_end(s, i),
    ensures
        depth(s, x) == depth(s, i),
{
    lemma_run(s, i);
    if x > i {
        assert forall|k: int| i <= k < x implies delta(#[trigger] s[k]) == 0 by {
            assert(alike(s[k], s[i]));
        }
        lemma_depth_flat(s, i, x);
    }
}

/// The depth in front of an instruction of the optimized program is the
/// depth in front of the run that it stands for.
pub proof fn lemma_depth_optimized(s: Seq<BrainfuckIR>, k: int)
    requires
        0 <= k <= optimized(s).len(),
    ensures
        depth(optimized(s), k) == depth(s, origin(s, k)),
    decreases k,
{
    if k > 0 {
        lemma_depth_optimized(s, k - 1);
        lemma_origin(s, k - 1);
        let o = origin(s, k - 1);
        let e = origin(s, k);
        lemma_run(s, o);
        lemma_depth_in_run(s, o, e - 1);
        assert(alike(s[e - 1], s[o]));
        assert(depth(s, e) == depth(s, e - 1) + delta(s[e - 1]));
    }
}

/// Optimizing keeps a balanced program balanced.
pub proof fn lemma_optimized_balanced(s: Seq<BrainfuckIR>)
    requires
        balanced(s),
    ensures
        balanced(optimized(s)),
{
    let t = optimized(s);
    assert forall|k: int| 0 <= k <= t.len() implies #[trigger] depth(t, k) >= 0 by {
        lemma_depth_optimized(s, k);
        lemma_origin(s, k);
    }
    lemma_depth_optimized(s, t.len() as int);
    lemma_origin(s, t.len() as int);
}

/// A loop of the optimized program stands for a loop of the program: its
/// ends are the origins of the loop's ends.
pub proof fn lemma_loop_optimized(s: Seq<BrainfuckIR>, open: int, close: int)
    requires
        is_loop(optimized(s), open, close),
    ensures
        is_loop(s, origin(s, open), origin(s, close)),
{
    let t = optimized(s);
    let d = depth(t, open);
    lemma_origin(s, open);
    lemma_origin(s, close);
    lemma_origin(s, close + 1);
    lemma_origin_increases(s, open, close);
    lemma_depth_optimized(s, open);
    lemma_depth_optimized(s, close + 1);
    let a = origin(s, open);
    let b = origin(s, close);
    lemma_run(s, a);
    lemma_run(s, b);
    assert(origin(s, close + 1) == b + 1);
    assert(origin(s, open + 1) == a + 1);
    lemma_between_origins(s, open, close, close);
}

proof fn lemma_between_origins(s: Seq<BrainfuckIR>, open: int, close: int, q: int)
    requires
        0 <= open <= q <= close < optimized(s).len(),
        forall|k: int| open < k <= close ==> #[trigger] depth(optimized(s), k) > depth(
            optimized(s),
            open,
        ),
    ensures
        forall|x: int|
            origin(s, open) < x <= origin(s, q) ==> #[trigger] depth(s, x) > depth(
                s,
                origin(s, open),
            ),
    decreases q - open,
{
    if open < q {
        lemma_between_origins(s, open, close, q - 1);
        lemma_origin(s, q - 1);
        lemma_origin(s, q);
        lemma_depth_optimized(s, open);
        lemma_depth_optimized(s, q - 1);
        lemma_depth_optimized(s, q);
        let o = origin(s, q - 1);
        let e = origin(s, q);
        assert forall|x: int| origin(s, open) < x <= e implies #[trigger] depth(s, x) > depth(
            s,
            origin(s, open),
        ) by {
            if x > o {
                if x < e {
                    lemma_depth_in_run(s, o, x);
                    assert(depth(optimized(s), q - 1) > depth(optimized(s), open));
                } else {
                    assert(depth(optimized(s), q) > depth(optimized(s), open));
                }
            }
        }
    }
}

} // verus!
