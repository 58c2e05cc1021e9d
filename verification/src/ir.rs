//! The instruction set, the translator from source text, and the optimizer.

use crate::error::{CompileError, CompileErrorKind};
use crate::fusion::{
    alike, compact, lemma_optimized_balanced, lemma_optimized_len, lemma_run, optimized,
    optimized_from, run_end, run_fused,
};
use crate::nesting::{balanced, delta, depth, lemma_depth_of_prefix, well_nested};
use vstd::prelude::*;

verus! {

/// One instruction of a program.
#[derive(Debug, Clone, Copy, PartialEq, Eq, Structural)]
pub enum BrainfuckIR {
    /// `+`: add to the current cell, wrapping.
    Add(u8),
    /// `-`: subtract from the current cell, wrapping.
    Sub(u8),
    /// `>`: move the data pointer right.
    PtrAdd(usize),
    /// `<`: move the data pointer left.
    PtrSub(usize),
    /// `.`: write the current cell.
    Write,
    /// `,`: read into the current cell.
    Read,
    /// `[`: jump to the matching `]` if the current cell is zero.
    Jz,
    /// `]`: jump to the matching `[` if the current cell is not zero.
    Jnz,
}

/// Whether two instructions are counted instructions of the same variant.
pub open spec fn fusible(a: BrainfuckIR, b: BrainfuckIR) -> bool {
    match (a, b) {
        (BrainfuckIR::Add(_), BrainfuckIR::Add(_)) => true,
        (BrainfuckIR::Sub(_), BrainfuckIR::Sub(_)) => true,
        (BrainfuckIR::PtrAdd(_), BrainfuckIR::PtrAdd(_)) => true,
        (BrainfuckIR::PtrSub(_), BrainfuckIR::PtrSub(_)) => true,
        _ => false,
    }
}

/// The single instruction that stands for `a` followed by `b`; the
/// magnitudes add up, wrapping at the width of the magnitude.
pub open spec fn fused(a: BrainfuckIR, b: BrainfuckIR) -> BrainfuckIR {
    match (a, b) {
        (BrainfuckIR::Add(x), BrainfuckIR::Add(y)) => BrainfuckIR::Add(x.wrapping_add(y)),
        (BrainfuckIR::Sub(x), BrainfuckIR::Sub(y)) => BrainfuckIR::Sub(x.wrapping_add(y)),
        (BrainfuckIR::PtrAdd(x), BrainfuckIR::PtrAdd(y)) => BrainfuckIR::PtrAdd(x.wrapping_add(y)),
        (BrainfuckIR::PtrSub(x), BrainfuckIR::PtrSub(y)) => BrainfuckIR::PtrSub(x.wrapping_add(y)),
        _ => a,
    }
}

/// Fuses `b` into `a` where both are counted instructions of one variant.
pub fn fuse(a: BrainfuckIR, b: BrainfuckIR) -> (r: Option<BrainfuckIR>)
    ensures
        r == (if fusible(a, b) { Some(fused(a, b)) } else { None }),
{
    match (a, b) {
        (BrainfuckIR::Add(x), BrainfuckIR::Add(y)) => Some(BrainfuckIR::Add(x.wrapping_add(y))),
        (BrainfuckIR::Sub(x), BrainfuckIR::Sub(y)) => Some(BrainfuckIR::Sub(x.wrapping_add(y))),
        (BrainfuckIR::PtrAdd(x), BrainfuckIR::PtrAdd(y)) => Some(
            BrainfuckIR::PtrAdd(x.wrapping_add(y)),
        ),
        (BrainfuckIR::PtrSub(x), BrainfuckIR::PtrSub(y)) => Some(
            BrainfuckIR::PtrSub(x.wrapping_add(y)),
        ),
        _ => None,
    }
}

/// Whether `c` is one of the eight symbols of the language.
pub open spec fn is_symbol(c: char) -> bool {
    c == '+' || c == '-' || c == '>' || c == '<' || c == '.' || c == ',' || c == '[' || c == ']'
}

/// The instruction that the symbol `c` stands for.
pub open spec fn instruction(c: char) -> BrainfuckIR
    recommends
        is_symbol(c),
{
    if c == '+' {
        BrainfuckIR::Add(1)
    } else if c == '-' {
        BrainfuckIR::Sub(1)
    } else if c == '>' {
        BrainfuckIR::PtrAdd(1)
    } else if c == '<' {
        BrainfuckIR::PtrSub(1)
    } else if c == '.' {
        BrainfuckIR::Write
    } else if c == ',' {
        BrainfuckIR::Read
    } else if c == '[' {
        BrainfuckIR::Jz
    } else {
        BrainfuckIR::Jnz
    }
}

/// The program that a text stands for: one instruction per symbol, in the
/// order of the text; newlines stand for nothing.
pub open spec fn translation(s: Seq<char>) -> Seq<BrainfuckIR>
    decreases s.len(),
{
    if s.len() == 0 {
        Seq::empty()
    } else if s.last() == '\n' {
        translation(s.drop_last())
    } else {
        translation(s.drop_last()).push(instruction(s.last()))
    }
}

/// The number of newlines among the first `i` characters.
pub open spec fn newlines(s: Seq<char>, i: int) -> int
    decreases i,
{
    if i <= 0 {
        0
    } else {
        newlines(s, i - 1) + if s[i - 1] == '\n' {
            1int
        } else {
            0int
        }
    }
}

/// The line of the character at `i`; the first line is line 1.
pub open spec fn line_of(s: Seq<char>, i: int) -> int {
    1 + newlines(s, i)
}

/// The column of the character at `i`. The counter stands at 1 where a line
/// begins and moves on before a character is looked at, so the first
/// character of a line is in column 2.
pub open spec fn column_of(s: Seq<char>, i: int) -> int
    decreases i,
{
    if i <= 0 || s[i - 1] == '\n' {
        2
    } else {
        column_of(s, i - 1) + 1
    }
}

/// The `[` among the first `i` characters minus the `]` among them.
pub open spec fn open_count(s: Seq<char>, i: int) -> int
    decreases i,
{
    if i <= 0 {
        0
    } else {
        open_count(s, i - 1) + if s[i - 1] == '[' {
            1int
        } else if s[i - 1] == ']' {
            -1int
        } else {
            0int
        }
    }
}

/// The character at `i` cannot be translated: it is neither a symbol nor a
/// newline, or it is a `]` with no `[` open in front of it.
pub open spec fn faulty(s: Seq<char>, i: int) -> bool {
    &&& 0 <= i < s.len()
    &&& {
        ||| s[i] != '\n' && !is_symbol(s[i])
        ||| s[i] == ']' && open_count(s, i) <= 0
    }
}

/// The character at `i` is the first that cannot be translated.
pub open spec fn first_fault(s: Seq<char>, i: int) -> bool {
    faulty(s, i) && forall|j: int| 0 <= j < i ==> !faulty(s, j)
}

/// Every character can be translated where it stands.
pub open spec fn clean(s: Seq<char>) -> bool {
    forall|i: int| 0 <= i < s.len() ==> !faulty(s, i)
}

/// The `[` at `i` is never closed: behind it the count of open brackets
/// never comes back down to what it was in front of it.
pub open spec fn unclosed(s: Seq<char>, i: int) -> bool {
    &&& 0 <= i < s.len()
    &&& s[i] == '['
    &&& forall|k: int| i < k <= s.len() ==> #[trigger] open_count(s, k) > open_count(s, i)
}

/// The `[` at `i` is the last one that is never closed.
pub open spec fn innermost_unclosed(s: Seq<char>, i: int) -> bool {
    unclosed(s, i) && forall|j: int| i < j < s.len() ==> !unclosed(s, j)
}

/// The brackets of the text pair up.
pub open spec fn text_balanced(s: Seq<char>) -> bool {
    &&& open_count(s, s.len() as int) == 0
    &&& forall|k: int| 0 <= k <= s.len() ==> #[trigger] open_count(s, k) >= 0
}

/// The kind of failure that the untranslatable character `c` causes.
pub open spec fn fault_kind(c: char) -> CompileErrorKind {
    if c == ']' {
        CompileErrorKind::UnexpectedRightBracket
    } else {
        CompileErrorKind::UnclosedCharacter
    }
}

/// The failure of kind `kind` at the place of the character at `i`.
pub open spec fn error_at(s: Seq<char>, i: int, kind: CompileErrorKind) -> CompileError {
    CompileError { line: line_of(s, i) as usize, col: column_of(s, i) as usize, kind }
}

/// What the translator reports for a text that it cannot translate: the
/// first character that cannot be translated, or else the last `[` that is
/// never closed.
pub open spec fn failure(s: Seq<char>, e: CompileError) -> bool {
    exists|i: int|
        {
            ||| first_fault(s, i) && e == error_at(s, i, fault_kind(s[i]))
            ||| clean(s) && innermost_unclosed(s, i) && e == error_at(
                s,
                i,
                CompileErrorKind::UnclosedLeftBracket,
            )
        }
}

/// A `[` that is open in front of the character at `n`: it stands at `i`
/// with `level` brackets open in front of it, and `entry` is what the
/// translator keeps of it.
spec fn pending(s: Seq<char>, n: int, i: int, level: int, entry: (usize, usize, usize)) -> bool {
    &&& 0 <= i < n
    &&& s[i] == '['
    &&& open_count(s, i) == level
    &&& forall|k: int| i < k <= n ==> #[trigger] open_count(s, k) > level
    &&& entry.0 == translation(s.take(i)).len()
    &&& entry.1 == line_of(s, i)
    &&& entry.2 == column_of(s, i)
}

proof fn lemma_push_depth(code: Seq<BrainfuckIR>, ir: BrainfuckIR)
    ensures
        forall|k: int| 0 <= k <= code.len() ==> #[trigger] depth(code.push(ir), k) == depth(code, k),
        depth(code.push(ir), code.len() as int + 1) == depth(code, code.len() as int) + delta(ir),
{
    assert forall|k: int| 0 <= k <= code.len() implies #[trigger] depth(code.push(ir), k) == depth(
        code,
        k,
    ) by {
        lemma_depth_of_prefix(code.push(ir), code, k);
    }
    let n = code.len() as int;
    assert(depth(code.push(ir), n + 1) == depth(code.push(ir), n) + delta(code.push(ir)[n]));
}

proof fn lemma_clean_counts(s: Seq<char>, k: int)
    requires
        0 <= k <= s.len(),
        forall|j: int| 0 <= j < k ==> !faulty(s, j),
    ensures
        open_count(s, k) >= 0,
    decreases k,
{
    if k > 0 {
        lemma_clean_counts(s, k - 1);
        assert(!faulty(s, k - 1));
    }
}

proof fn lemma_translation_step(s: Seq<char>, n: int)
    requires
        0 <= n < s.len(),
    ensures
        translation(s.take(n + 1)) == if s[n] == '\n' {
            translation(s.take(n))
        } else {
            translation(s.take(n)).push(instruction(s[n]))
        },
        translation(s.take(n)).len() <= n,
    decreases n,
{
    assert(s.take(n + 1).drop_last() =~= s.take(n));
    if n > 0 {
        lemma_translation_step(s, n - 1);
    }
}

/// A text of symbols alone is translated symbol by symbol.
pub proof fn lemma_translation_of_symbols(s: Seq<char>)
    requires
        forall|i: int| 0 <= i < s.len() ==> is_symbol(#[trigger] s[i]),
    ensures
        translation(s).len() == s.len(),
        forall|i: int| 0 <= i < s.len() ==> #[trigger] translation(s)[i] == instruction(s[i]),
    decreases s.len(),
{
    if s.len() > 0 {
        let t = s.drop_last();
        assert forall|i: int| 0 <= i < t.len() implies is_symbol(#[trigger] t[i]) by {
            assert(t[i] == s[i]);
        }
        lemma_translation_of_symbols(t);
        assert(is_symbol(s[s.len() - 1]));
    }
}

/// Translates source text into a program.
///
/// The text is scanned once. Where a character cannot be translated, the
/// first such character is reported; where a `[` is left open at the end of
/// an otherwise clean text, the last such `[` is reported; else the result
/// is the translation of the text, which is a balanced program.
///
/// The text has fewer than `usize::MAX` characters, so that the line and
/// column counters cannot overflow.
pub fn compile(source: &str) -> (r: Result<Vec<BrainfuckIR>, CompileError>)
    requires
        source@.len() < usize::MAX,
    ensures
        r is Ok <==> clean(source@) && open_count(source@, source@.len() as int) == 0,
        r matches Ok(code) ==> code@ == translation(source@) && balanced(code@),
        forall|i: int| #[trigger]
            first_fault(source@, i) ==> r == Err::<Vec<BrainfuckIR>, CompileError>(
                error_at(source@, i, fault_kind(source@[i])),
            ),
        forall|i: int|
            clean(source@) && #[trigger] innermost_unclosed(source@, i) ==> r == Err::<
                Vec<BrainfuckIR>,
                CompileError,
            >(error_at(source@, i, CompileErrorKind::UnclosedLeftBracket)),
        r matches Err(e) ==> failure(source@, e),
        (forall|i: int| 0 <= i < source@.len() ==> is_symbol(#[trigger] source@[i]))
            && text_balanced(source@) ==> (r matches Ok(code) && code@.len() == source@.len()
            && forall|i: int|
            0 <= i < source@.len() ==> #[trigger] code@[i] == instruction(source@[i])),
{
    let mut code: Vec<BrainfuckIR> = Vec::new();
    let mut stack: Vec<(usize, usize, usize)> = Vec::new();
    let mut line: usize = 1;
    let mut col: usize = 1;
    let ghost s = source@;
    let ghost mut n: int = 0;
    let ghost mut opens: Seq<int> = Seq::empty();
    assert(s.take(0) =~= Seq::<char>::empty());
    for ch in it: source.chars()
        invariant
            s == source@,
            it.seq() == s,
            n == it.index(),
            s.len() < usize::MAX,
            code@ == translation(s.take(n)),
            code@.len() <= n,
            forall|j: int| 0 <= j < n ==> !faulty(s, j),
            line == line_of(s, n),
            col + 1 == column_of(s, n),
            1 <= line <= n + 1,
            1 <= col <= n + 1,
            stack@.len() == open_count(s, n),
            opens.len() == stack@.len(),
            depth(code@, code@.len() as int) == open_count(s, n),
            well_nested(code@),
            forall|l: int| 0 <= l < opens.len() ==> pending(s, n, #[trigger] opens[l], l, stack@[l]),
    {
        assert(ch == s[n]);
        proof {
            lemma_translation_step(s, n);
        }
        let ghost before = code@;
        col = col + 1;
        if ch == '\n' {
            line = line + 1;
            col = 1;
        } else if ch == '+' {
            code.push(BrainfuckIR::Add(1));
        } else if ch == '-' {
            code.push(BrainfuckIR::Sub(1));
        } else if ch == '>' {
            code.push(BrainfuckIR::PtrAdd(1));
        } else if ch == '<' {
            code.push(BrainfuckIR::PtrSub(1));
        } else if ch == ',' {
            code.push(BrainfuckIR::Read);
        } else if ch == '.' {
            code.push(BrainfuckIR::Write);
        } else if ch == '[' {
            let pos = code.len();
            stack.push((pos, line, col));
            code.push(BrainfuckIR::Jz);
            proof {
                opens = opens.push(n);
            }
        } else if ch == ']' {
            match stack.pop() {
                None => {
                    assert(first_fault(s, n));
                    assert(open_count(s, n + 1) == open_count(s, n) - 1);
                    return Err(
                        CompileError { line, col, kind: CompileErrorKind::UnexpectedRightBracket },
                    );
                },
                Some(_) => {
                    proof {
                        opens = opens.drop_last();
                    }
                },
            }
            code.push(BrainfuckIR::Jnz);
        } else {
            assert(first_fault(s, n));
            return Err(CompileError { line, col, kind: CompileErrorKind::UnclosedCharacter });
        }
        proof {
            if ch != '\n' {
                lemma_push_depth(before, instruction(ch));
            }
            n = n + 1;
        }
    }
    assert(s.take(n) =~= s);
    match stack.pop() {
        Some((_, line, col)) => {
            proof {
                let i = opens.last();
                assert(unclosed(s, i));
                assert forall|j: int| i < j < s.len() implies !unclosed(s, j) by {
                    assert(open_count(s, j) > opens.len() - 1);
                }
                assert(innermost_unclosed(s, i));
                assert forall|j: int| innermost_unclosed(s, j) implies j == i by {
                    if j < i {
                        assert(!unclosed(s, i));
                    } else if i < j {
                        assert(!unclosed(s, j));
                    }
                }
            }
            Err(CompileError { line, col, kind: CompileErrorKind::UnclosedLeftBracket })
        },
        None => {
            proof {
                assert forall|i: int| !unclosed(s, i) by {
                    if 0 <= i < s.len() {
                        lemma_clean_counts(s, i);
                    }
                }
                if (forall|i: int| 0 <= i < s.len() ==> is_symbol(#[trigger] s[i])) {
                    lemma_translation_of_symbols(s);
                }
            }
            Ok(code)
        },
    }
}

/// `Vec::shrink_to_fit`: gives spare capacity back; the contents stay as
/// they are.
#[verifier::external_body]
fn shrink(code: &mut Vec<BrainfuckIR>)
    ensures
        final(code)@ == old(code)@,
{
    code.shrink_to_fit();
}

/// Fuses every run of counted instructions of one variant into a single
/// instruction that carries the wrapping sum of their magnitudes, and
/// returns how many instructions that removed.
///
/// The program gets no longer, and keeps its length only where it has no
/// two fusible neighbours. `Write`, `Read`, `Jz` and `Jnz` stay as they are
/// and in their order, so a balanced program stays balanced.
pub fn optimize(code: &mut Vec<BrainfuckIR>) -> (removed: usize)
    ensures
        final(code)@ == optimized(old(code)@),
        removed == old(code)@.len() - final(code)@.len(),
        final(code)@.len() <= old(code)@.len(),
        final(code)@.len() == old(code)@.len() <==> compact(old(code)@),
        balanced(old(code)@) ==> balanced(final(code)@),
{
    let prev = code.len();
    let mut cur: usize = 0;
    let mut i: usize = 0;
    let ghost orig = code@;
    assert(code@.take(0) + optimized_from(orig, 0) =~= optimized(orig));
    while i < code.len()
        invariant
            code@.len() == orig.len(),
            cur <= i <= orig.len(),
            forall|k: int| i <= k < orig.len() ==> code@[k] == orig[k],
            code@.take(cur as int) + optimized_from(orig, i as int) == optimized(orig),
        decreases orig.len() - i,
    {
        let mut acc = code[i];
        let mut j = i + 1;
        proof {
            lemma_run(orig, i as int);
        }
        while j < code.len()
            invariant_except_break
                i < j <= run_end(orig, i as int),
                run_end(orig, j - 1) == run_end(orig, i as int),
                alike(acc, orig[j - 1]),
            invariant
                i < j <= orig.len(),
                code@.len() == orig.len(),
                forall|k: int| i <= k < orig.len() ==> code@[k] == orig[k],
                acc == run_fused(orig, i as int, j as int),
            ensures
                j == run_end(orig, i as int),
            decreases orig.len() - j,
        {
            match fuse(acc, code[j]) {
                Some(sum) => {
                    proof {
                        lemma_run(orig, j as int);
                    }
                    acc = sum;
                    j = j + 1;
                },
                None => {
                    break ;
                },
            }
        }
        let ghost before = code@;
        code.set(cur, acc);
        proof {
            assert(code@.take(cur + 1) =~= before.take(cur as int).push(acc));
            assert(before.take(cur as int).push(acc) + optimized_from(orig, j as int)
                =~= before.take(cur as int) + optimized_from(orig, i as int));
        }
        cur = cur + 1;
        i = j;
    }
    code.truncate(cur);
    shrink(code);
    proof {
        assert(code@ =~= optimized(orig));
        lemma_optimized_len(orig, 0);
        if balanced(orig) {
            lemma_optimized_balanced(orig);
        }
    }
    prev - code.len()
}

} // verus!
