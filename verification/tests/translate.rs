use brainfuck_rs::error::{CompileError, CompileErrorKind};
use brainfuck_rs::ir::{compile, fuse, optimize, BrainfuckIR};

#[test]
fn compile_test() {
    let code = compile("+[,.]");
    assert_eq!(
        code.unwrap(),
        vec![
            BrainfuckIR::Add(1),
            BrainfuckIR::Jz,
            BrainfuckIR::Read,
            BrainfuckIR::Write,
            BrainfuckIR::Jnz,
        ]
    );

    let code = compile("[[]");
    assert_eq!(
        code.unwrap_err().kind,
        CompileErrorKind::UnclosedLeftBracket
    );

    let code = compile("[]]");
    assert_eq!(
        code.unwrap_err().kind,
        CompileErrorKind::UnexpectedRightBracket
    );
}

#[test]
fn optimize_test() {
    let code = compile("++++++++++----->><<");
    assert!(code.is_ok());
    let mut code = code.unwrap();
    let opt = optimize(&mut code);
    assert_eq!(opt, 15);
    assert_eq!(
        code,
        vec![
            BrainfuckIR::Add(10),
            BrainfuckIR::Sub(5),
            BrainfuckIR::PtrAdd(2),
            BrainfuckIR::PtrSub(2)
        ]
    );

    let mut code = vec![
        BrainfuckIR::Add(2),
        BrainfuckIR::Add(3),
        BrainfuckIR::Add(4),
    ];
    let opt = optimize(&mut code);
    assert_eq!(opt, 2);
    assert_eq!(code, vec![BrainfuckIR::Add(9)]);
}

#[test]
fn every_symbol_gives_one_instruction() {
    let code = compile("+-><.,[]").unwrap();
    assert_eq!(
        code,
        vec![
            BrainfuckIR::Add(1),
            BrainfuckIR::Sub(1),
            BrainfuckIR::PtrAdd(1),
            BrainfuckIR::PtrSub(1),
            BrainfuckIR::Write,
            BrainfuckIR::Read,
            BrainfuckIR::Jz,
            BrainfuckIR::Jnz,
        ]
    );
}

#[test]
fn empty_text_gives_empty_program() {
    assert_eq!(compile("").unwrap(), vec![]);
}

#[test]
fn newlines_give_no_instruction() {
    assert_eq!(
        compile("+\n\n-\n").unwrap(),
        vec![BrainfuckIR::Add(1), BrainfuckIR::Sub(1)]
    );
}

#[test]
fn magnitude_merge_compiles_to_unit_instructions() {
    let code = compile("++++++++++----->><<").unwrap();
    assert_eq!(code.len(), 19);
    for (i, ir) in code.iter().enumerate() {
        let expected = if i < 10 {
            BrainfuckIR::Add(1)
        } else if i < 15 {
            BrainfuckIR::Sub(1)
        } else if i < 17 {
            BrainfuckIR::PtrAdd(1)
        } else {
            BrainfuckIR::PtrSub(1)
        };
        assert_eq!(*ir, expected);
    }
}

#[test]
fn unexpected_right_bracket_is_reported_where_it_stands() {
    assert_eq!(
        compile("[]]").unwrap_err(),
        CompileError { line: 1, col: 4, kind: CompileErrorKind::UnexpectedRightBracket }
    );
    assert_eq!(
        compile("]").unwrap_err(),
        CompileError { line: 1, col: 2, kind: CompileErrorKind::UnexpectedRightBracket }
    );
    assert_eq!(
        compile("+\n+]").unwrap_err(),
        CompileError { line: 2, col: 3, kind: CompileErrorKind::UnexpectedRightBracket }
    );
}

#[test]
fn unclosed_left_bracket_is_the_innermost_one() {
    assert_eq!(
        compile("[[]").unwrap_err(),
        CompileError { line: 1, col: 2, kind: CompileErrorKind::UnclosedLeftBracket }
    );
    assert_eq!(
        compile("[+[").unwrap_err(),
        CompileError { line: 1, col: 4, kind: CompileErrorKind::UnclosedLeftBracket }
    );
    assert_eq!(
        compile("[\n+\n  [[]").unwrap_err().kind,
        CompileErrorKind::UnclosedCharacter
    );
    assert_eq!(
        compile("[\n+\n[[]").unwrap_err(),
        CompileError { line: 3, col: 2, kind: CompileErrorKind::UnclosedLeftBracket }
    );
}

#[test]
fn unrecognized_character_is_reported_where_it_stands() {
    assert_eq!(
        compile("+a").unwrap_err(),
        CompileError { line: 1, col: 3, kind: CompileErrorKind::UnclosedCharacter }
    );
    assert_eq!(
        compile("++\n+ +").unwrap_err(),
        CompileError { line: 2, col: 3, kind: CompileErrorKind::UnclosedCharacter }
    );
    assert_eq!(
        compile("\u{e9}").unwrap_err(),
        CompileError { line: 1, col: 2, kind: CompileErrorKind::UnclosedCharacter }
    );
}

#[test]
fn columns_count_characters_not_bytes() {
    assert_eq!(
        compile("+\n\u{1f600}").unwrap_err(),
        CompileError { line: 2, col: 2, kind: CompileErrorKind::UnclosedCharacter }
    );
}

#[test]
fn the_first_fault_wins() {
    assert_eq!(
        compile("a]").unwrap_err(),
        CompileError { line: 1, col: 2, kind: CompileErrorKind::UnclosedCharacter }
    );
    assert_eq!(
        compile("[a").unwrap_err(),
        CompileError { line: 1, col: 3, kind: CompileErrorKind::UnclosedCharacter }
    );
    assert_eq!(
        compile("][").unwrap_err(),
        CompileError { line: 1, col: 2, kind: CompileErrorKind::UnexpectedRightBracket }
    );
}

#[test]
fn translation_is_deterministic() {
    assert_eq!(compile("+[->+<]"), compile("+[->+<]"));
    assert_eq!(compile("+[->+<"), compile("+[->+<"));
}

#[test]
fn three_equal_adds_merge_into_one() {
    let mut code = vec![BrainfuckIR::Add(1), BrainfuckIR::Add(1), BrainfuckIR::Add(1)];
    let removed = optimize(&mut code);
    assert_eq!(removed, 2);
    assert_eq!(code, vec![BrainfuckIR::Add(3)]);
}

#[test]
fn optimize_leaves_structural_instructions_alone() {
    let mut code = compile("..,,[[]]").unwrap();
    let before = code.clone();
    assert_eq!(optimize(&mut code), 0);
    assert_eq!(code, before);
}

#[test]
fn optimize_does_not_merge_across_variants_or_jumps() {
    let mut code = compile("++[++]--+").unwrap();
    assert_eq!(optimize(&mut code), 3);
    assert_eq!(
        code,
        vec![
            BrainfuckIR::Add(2),
            BrainfuckIR::Jz,
            BrainfuckIR::Add(2),
            BrainfuckIR::Jnz,
            BrainfuckIR::Sub(2),
            BrainfuckIR::Add(1),
        ]
    );
}

#[test]
fn optimize_keeps_length_only_of_compact_programs() {
    let mut code = compile("+-+-><").unwrap();
    assert_eq!(optimize(&mut code), 0);
    assert_eq!(code.len(), 6);
    let mut code = compile("+-+->>").unwrap();
    assert_eq!(optimize(&mut code), 1);
    assert_eq!(code.len(), 5);
}

#[test]
fn optimize_twice_is_optimize_once() {
    let mut code = compile("+++[>>>--<<<-]>>..,,++").unwrap();
    optimize(&mut code);
    let once = code.clone();
    assert_eq!(optimize(&mut code), 0);
    assert_eq!(code, once);
}

#[test]
fn optimize_empty_program() {
    let mut code: Vec<BrainfuckIR> = vec![];
    assert_eq!(optimize(&mut code), 0);
    assert!(code.is_empty());
}

#[test]
fn cell_magnitudes_wrap() {
    let mut code = vec![BrainfuckIR::Add(200), BrainfuckIR::Add(100)];
    assert_eq!(optimize(&mut code), 1);
    assert_eq!(code, vec![BrainfuckIR::Add(44)]);
    let mut code = vec![BrainfuckIR::Sub(255), BrainfuckIR::Sub(1), BrainfuckIR::Sub(1)];
    assert_eq!(optimize(&mut code), 2);
    assert_eq!(code, vec![BrainfuckIR::Sub(1)]);
}

#[test]
fn pointer_magnitudes_wrap() {
    let mut code = vec![BrainfuckIR::PtrAdd(usize::MAX), BrainfuckIR::PtrAdd(3)];
    assert_eq!(optimize(&mut code), 1);
    assert_eq!(code, vec![BrainfuckIR::PtrAdd(2)]);
    let mut code = vec![BrainfuckIR::PtrSub(usize::MAX), BrainfuckIR::PtrSub(1)];
    assert_eq!(optimize(&mut code), 1);
    assert_eq!(code, vec![BrainfuckIR::PtrSub(0)]);
}

#[test]
fn fuse_adds_magnitudes_of_one_variant() {
    assert_eq!(fuse(BrainfuckIR::Add(2), BrainfuckIR::Add(5)), Some(BrainfuckIR::Add(7)));
    assert_eq!(fuse(BrainfuckIR::Sub(2), BrainfuckIR::Sub(5)), Some(BrainfuckIR::Sub(7)));
    assert_eq!(
        fuse(BrainfuckIR::PtrAdd(2), BrainfuckIR::PtrAdd(5)),
        Some(BrainfuckIR::PtrAdd(7))
    );
    assert_eq!(
        fuse(BrainfuckIR::PtrSub(2), BrainfuckIR::PtrSub(5)),
        Some(BrainfuckIR::PtrSub(7))
    );
    assert_eq!(fuse(BrainfuckIR::Add(2), BrainfuckIR::Sub(5)), None);
    assert_eq!(fuse(BrainfuckIR::Write, BrainfuckIR::Write), None);
    assert_eq!(fuse(BrainfuckIR::Jz, BrainfuckIR::Jz), None);
}

#[test]
fn optimize_gives_spare_capacity_back() {
    let mut code = Vec::with_capacity(64);
    for _ in 0..40 {
        code.push(BrainfuckIR::Add(1));
    }
    assert_eq!(optimize(&mut code), 39);
    assert_eq!(code, vec![BrainfuckIR::Add(40)]);
    assert!(code.capacity() < 40);
}
