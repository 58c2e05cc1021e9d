//! Bracket structure of a program: nesting depth, loops and their partners.

use crate::ir::BrainfuckIR;
use vstd::prelude::*;

verus! {

/// How an instruction changes the nesting depth.
pub open spec fn delta(ir: BrainfuckIR) -> int {
    match ir {
        BrainfuckIR::Jz => 1,
        BrainfuckIR::Jnz => -1,
        _ => 0,
    }
}

/// The number of loops that are open in front of the instruction at `k`:
/// the `Jz` among the first `k` instructions minus the `Jnz` among them.
pub open spec fn depth(code: Seq<BrainfuckIR>, k: int) -> int
    decreases k,
{
    if k <= 0 {
        0
    } else {
        depth(code, k - 1) + delta(code[k - 1])
    }
}

/// No `Jnz` comes without an open `Jz` before it.
pub open spec fn well_nested(code: Seq<BrainfuckIR>) -> bool {
    forall|k: int| 0 <= k <= code.len() ==> #[trigger] depth(code, k) >= 0
}

/// Every `Jz` and every `Jnz` belongs to exactly one properly nested pair.
pub open spec fn balanced(code: Seq<BrainfuckIR>) -> bool {
    well_nested(code) && depth(code, code.len() as int) == 0
}

/// The `Jz` at `open` and the `Jnz` at `close` delimit one loop: the depth
/// behind `close` is the depth in front of `open`, and it is greater
/// everywhere in between.
pub open spec fn is_loop(code: Seq<BrainfuckIR>, open: int, close: int) -> bool {
    &&& 0 <= open < close < code.len()
    &&& code[open] is Jz
    &&& code[close] is Jnz
    &&& depth(code, close + 1) == depth(code, open)
    &&& forall|k: int| open < k <= close ==> #[trigger] depth(code, k) > depth(code, open)
}

/// The other end of the loop that the jump at `k` belongs to.
pub open spec fn partner(code: Seq<BrainfuckIR>, k: int) -> int {
    choose|j: int| is_loop(code, k, j) || is_loop(code, j, k)
}

/// `table` maps each end of every loop of `code` to the other end, and
/// holds nothing else.
pub open spec fn is_jump_table(code: Seq<BrainfuckIR>, table: Map<usize, usize>) -> bool {
    &&& forall|a: int, b: int| #[trigger]
        is_loop(code, a, b) ==> {
            &&& table.contains_key(a as usize)
            &&& table[a as usize] == b
            &&& table.contains_key(b as usize)
            &&& table[b as usize] == a
        }
    &&& forall|k: usize| #[trigger]
        table.contains_key(k) ==> is_loop(code, k as int, table[k] as int) || is_loop(
            code,
            table[k] as int,
            k as int,
        )
}

/// The depth in front of `k` depends on the first `k` instructions only.
pub proof fn lemma_depth_of_prefix(a: Seq<BrainfuckIR>, b: Seq<BrainfuckIR>, k: int)
    requires
        0 <= k <= a.len(),
        k <= b.len(),
        forall|i: int| 0 <= i < k ==> a[i] == b[i],
    ensures
        depth(a, k) == depth(b, k),
    decreases k,
{
    if k > 0 {
        lemma_depth_of_prefix(a, b, k - 1);
    }
}

/// A loop has one opening and one closing instruction: two loops that share
/// an end are the same loop.
pub proof fn lemma_loop_unique(code: Seq<BrainfuckIR>, a: int, b: int, c: int, d: int)
    requires
        is_loop(code, a, b),
        is_loop(code, c, d),
        a == c || b == d,
    ensures
        a == c,
        b == d,
{
    if a == c {
        if b < d {
            assert(depth(code, b + 1) > depth(code, c));
        } else if d < b {
            assert(depth(code, d + 1) > depth(code, a));
        }
    } else {
        if a < c {
            assert(depth(code, c) > depth(code, a));
        } else {
            assert(depth(code, a) > depth(code, c));
        }
    }
}

proof fn lemma_scan_for_close(code: Seq<BrainfuckIR>, open: int, j: int) -> (close: int)
    requires
        0 <= open < j <= code.len(),
        code[open] is Jz,
        depth(code, code.len() as int) <= depth(code, open),
        forall|k: int| open < k <= j ==> #[trigger] depth(code, k) > depth(code, open),
    ensures
        is_loop(code, open, close),
    decreases code.len() - j,
{
    if j == code.len() {
        assert(depth(code, j) > depth(code, open));
        arbitrary()
    } else {
        assert(depth(code, j) > depth(code, open));
        assert(depth(code, j + 1) == depth(code, j) + delta(code[j]));
        if depth(code, j + 1) == depth(code, open) {
            j
        } else {
            lemma_scan_for_close(code, open, j + 1)
        }
    }
}

proof fn lemma_scan_for_open(code: Seq<BrainfuckIR>, close: int, j: int) -> (open: int)
    requires
        0 <= j <= close < code.len(),
        code[close] is Jnz,
        well_nested(code),
        forall|k: int| j <= k <= close ==> #[trigger] depth(code, k) > depth(code, close + 1),
    ensures
        is_loop(code, open, close),
    decreases j,
{
    assert(depth(code, close + 1) >= 0);
    assert(depth(code, j) > depth(code, close + 1));
    if j == 0 {
        arbitrary()
    } else {
        assert(depth(code, j) == depth(code, j - 1) + delta(code[j - 1]));
        if depth(code, j - 1) == depth(code, close + 1) {
            j - 1
        } else {
            lemma_scan_for_open(code, close, j - 1)
        }
    }
}

/// In a balanced program every `Jz` opens a loop.
pub proof fn lemma_close_exists(code: Seq<BrainfuckIR>, open: int) -> (close: int)
    requires
        balanced(code),
        0 <= open < code.len(),
        code[open] is Jz,
    ensures
        is_loop(code, open, close),
{
    assert(depth(code, open) >= 0);
    assert(depth(code, open + 1) == depth(code, open) + delta(code[open]));
    lemma_scan_for_close(code, open, open + 1)
}

/// In a well-nested program every `Jnz` closes a loop.
pub proof fn lemma_open_exists(code: Seq<BrainfuckIR>, close: int) -> (open: int)
    requires
        well_nested(code),
        0 <= close < code.len(),
        code[close] is Jnz,
    ensures
        is_loop(code, open, close),
{
    assert(depth(code, close + 1) == depth(code, close) + delta(code[close]));
    lemma_scan_for_open(code, close, close)
}

/// In a balanced program the partner of a jump is the other end of its loop.
pub proof fn lemma_partner(code: Seq<BrainfuckIR>, k: int)
    requires
        balanced(code),
        0 <= k < code.len(),
        code[k] is Jz || code[k] is Jnz,
    ensures
        0 <= partner(code, k) < code.len(),
        code[k] is Jz ==> is_loop(code, k, partner(code, k)),
        code[k] is Jnz ==> is_loop(code, partner(code, k), k),
{
    if code[k] is Jz {
        let close = lemma_close_exists(code, k);
        assert(is_loop(code, k, close) || is_loop(code, close, k));
    } else {
        let open = lemma_open_exists(code, k);
        assert(is_loop(code, k, open) || is_loop(code, open, k));
    }
}

/// Whatever index stands in a loop relation with `k` is the partner of `k`.
pub proof fn lemma_partner_is(code: Seq<BrainfuckIR>, k: int, j: int)
    requires
        is_loop(code, k, j) || is_loop(code, j, k),
    ensures
        partner(code, k) == j,
{
    let p = partner(code, k);
    assert(is_loop(code, k, p) || is_loop(code, p, k));
    if is_loop(code, k, j) {
        if is_loop(code, k, p) {
            lemma_loop_unique(code, k, j, k, p);
        }
    } else {
        if is_loop(code, p, k) {
            lemma_loop_unique(code, j, k, p, k);
        }
    }
}

/// A jump table of a balanced program holds every jump, with its partner.
pub proof fn lemma_jump_table_lookup(code: Seq<BrainfuckIR>, table: Map<usize, usize>, k: usize)
    requires
        balanced(code),
        is_jump_table(code, table),
        k < code.len(),
        code[k as int] is Jz || code[k as int] is Jnz,
    ensures
        table.contains_key(k),
        table[k] == partner(code, k as int),
        table[k] < code.len(),
{
    lemma_partner(code, k as int);
    let p = partner(code, k as int);
    if code[k as int] is Jz {
        assert(is_loop(code, k as int, p));
    } else {
        assert(is_loop(code, p, k as int));
    }
}

} // verus!
