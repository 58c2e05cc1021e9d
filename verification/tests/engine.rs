use brainfuck_rs::error::RuntimeError;
use brainfuck_rs::ir::BrainfuckIR;
use brainfuck_rs::machine::Action;
use brainfuck_rs::vm::{VM, MEMORY_SIZE};

/// Runs the engine to its end on the given input; a read at the end of the
/// input stops the run.
fn drive(vm: &mut VM, input: &[u8], fuel: usize) -> (Vec<u8>, Result<Action, RuntimeError>) {
    let mut output = Vec::new();
    let mut next = 0;
    loop {
        match vm.run(fuel) {
            Ok(Action::Write(byte)) => output.push(byte),
            Ok(Action::Read) => {
                if next == input.len() {
                    return (output, Ok(Action::Read));
                }
                assert!(vm.feed(input[next]));
                next += 1;
            }
            Ok(Action::Pause) => {}
            other => return (output, other),
        }
    }
}

#[test]
fn jump_table_pairs_the_brackets() {
    let vm = VM::with_memory_size("+[,.]", false, 16).unwrap();
    assert_eq!(
        *vm.code(),
        vec![
            BrainfuckIR::Add(1),
            BrainfuckIR::Jz,
            BrainfuckIR::Read,
            BrainfuckIR::Write,
            BrainfuckIR::Jnz,
        ]
    );
    let table = vm.mark_left_right();
    assert_eq!(table.len(), 2);
    assert_eq!(table[&1], 4);
    assert_eq!(table[&4], 1);
}

#[test]
fn jump_table_of_nested_loops() {
    let vm = VM::with_memory_size("[[][[]]]+[]", false, 16).unwrap();
    let table = vm.mark_left_right();
    let pairs = [(0, 7), (1, 2), (3, 6), (4, 5), (9, 10)];
    assert_eq!(table.len(), 2 * pairs.len());
    for (open, close) in pairs {
        assert_eq!(table[&open], close);
        assert_eq!(table[&close], open);
    }
}

#[test]
fn jump_table_of_a_program_without_loops_is_empty() {
    let vm = VM::with_memory_size("+-><.,", false, 16).unwrap();
    assert!(vm.mark_left_right().is_empty());
}

#[test]
fn left_move_on_a_tape_of_one_cell_overflows() {
    let mut vm = VM::with_memory_size("<", false, 1).unwrap();
    assert_eq!(vm.run(100), Err(RuntimeError::Overflow));
    assert_eq!(vm.pc(), 0);
    assert_eq!(vm.pointer(), 0);
    assert_eq!(*vm.memory(), vec![0]);
}

#[test]
fn right_move_on_a_tape_of_one_cell_overflows() {
    let mut vm = VM::with_memory_size(">", false, 1).unwrap();
    assert_eq!(vm.run(100), Err(RuntimeError::Overflow));
    assert_eq!(vm.pc(), 0);
    assert_eq!(vm.pointer(), 0);
}

#[test]
fn right_move_at_the_last_cell_overflows() {
    let mut vm = VM::with_memory_size("+>+>+>+", false, 3).unwrap();
    let (output, result) = drive(&mut vm, &[], 100);
    assert!(output.is_empty());
    assert_eq!(result, Err(RuntimeError::Overflow));
    assert_eq!(vm.pointer(), 2);
    assert_eq!(vm.pc(), 5);
    assert_eq!(*vm.memory(), vec![1, 1, 1]);
}

#[test]
fn fused_move_past_the_edge_overflows_without_moving() {
    let mut vm = VM::with_memory_size(">>>", true, 3).unwrap();
    assert_eq!(*vm.code(), vec![BrainfuckIR::PtrAdd(3)]);
    assert_eq!(vm.run(100), Err(RuntimeError::Overflow));
    assert_eq!(vm.pointer(), 0);
    assert_eq!(vm.pc(), 0);
    let mut vm = VM::with_memory_size(">><<<", true, 3).unwrap();
    assert_eq!(vm.run(100), Err(RuntimeError::Overflow));
    assert_eq!(vm.pointer(), 2);
    assert_eq!(vm.pc(), 1);
}

#[test]
fn fused_move_within_the_tape_moves() {
    let mut vm = VM::with_memory_size(">>+<<", true, 3).unwrap();
    assert_eq!(vm.run(100), Ok(Action::Halt));
    assert_eq!(vm.pointer(), 0);
    assert_eq!(*vm.memory(), vec![0, 0, 1]);
}

#[test]
fn read_then_write_round_trips_a_byte() {
    let mut vm = VM::with_memory_size(",.", false, 8).unwrap();
    let (output, result) = drive(&mut vm, &[0x41], 100);
    assert_eq!(output, vec![0x41]);
    assert_eq!(result, Ok(Action::Halt));
    assert_eq!(vm.pc(), vm.code().len());
    assert_eq!(vm.pc(), 2);
}

#[test]
fn read_waits_at_the_read() {
    let mut vm = VM::with_memory_size("+,", false, 8).unwrap();
    assert_eq!(vm.run(100), Ok(Action::Read));
    assert_eq!(vm.pc(), 1);
    assert_eq!(vm.run(100), Ok(Action::Read));
    assert_eq!(vm.pc(), 1);
    assert!(vm.feed(7));
    assert_eq!(vm.pc(), 2);
    assert_eq!(vm.memory()[0], 7);
    assert_eq!(vm.run(100), Ok(Action::Halt));
}

#[test]
fn feed_is_refused_where_no_read_waits() {
    let mut vm = VM::with_memory_size("+", false, 8).unwrap();
    assert!(!vm.feed(9));
    assert_eq!(vm.pc(), 0);
    assert_eq!(vm.memory()[0], 0);
    assert_eq!(vm.run(100), Ok(Action::Halt));
    assert!(!vm.feed(9));
    assert_eq!(vm.pc(), 1);
    assert_eq!(vm.memory()[0], 1);
}

#[test]
fn new_engine_starts_zeroed() {
    let vm = VM::new("+", false).unwrap();
    assert_eq!(vm.pc(), 0);
    assert_eq!(vm.pointer(), 0);
    assert_eq!(vm.memory().len(), MEMORY_SIZE);
    assert_eq!(MEMORY_SIZE, 4194304);
    assert!(vm.memory().iter().all(|cell| *cell == 0));
}

#[test]
fn new_engine_reports_translation_failures() {
    let error = VM::new("+[", true).err().unwrap();
    assert_eq!(error.kind, brainfuck_rs::error::CompileErrorKind::UnclosedLeftBracket);
    assert_eq!((error.line, error.col), (1, 3));
}

#[test]
fn new_engine_optimizes_on_request() {
    let vm = VM::with_memory_size("+++", true, 4).unwrap();
    assert_eq!(*vm.code(), vec![BrainfuckIR::Add(3)]);
    let vm = VM::with_memory_size("+++", false, 4).unwrap();
    assert_eq!(vm.code().len(), 3);
}

#[test]
fn empty_program_halts_at_once() {
    let mut vm = VM::with_memory_size("", false, 1).unwrap();
    assert_eq!(vm.run(0), Ok(Action::Halt));
    assert_eq!(vm.pc(), 0);
}

#[test]
fn cells_wrap() {
    let mut vm = VM::with_memory_size("-.", false, 1).unwrap();
    assert_eq!(vm.run(10), Ok(Action::Write(255)));
    let mut vm = VM::with_memory_size("-++.", false, 1).unwrap();
    assert_eq!(vm.run(10), Ok(Action::Write(1)));
}

#[test]
fn run_pauses_when_the_fuel_is_spent() {
    let mut vm = VM::with_memory_size("+++.", false, 1).unwrap();
    assert_eq!(vm.run(2), Ok(Action::Pause));
    assert_eq!(vm.pc(), 2);
    assert_eq!(vm.memory()[0], 2);
    assert_eq!(vm.run(0), Ok(Action::Pause));
    assert_eq!(vm.pc(), 2);
    assert_eq!(vm.run(1), Ok(Action::Write(3)));
    assert_eq!(vm.pc(), 4);
    assert_eq!(vm.run(0), Ok(Action::Halt));
}

#[test]
fn endless_loop_pauses_again_and_again() {
    let mut vm = VM::with_memory_size("+[]", false, 1).unwrap();
    for _ in 0..5 {
        assert_eq!(vm.run(1000), Ok(Action::Pause));
    }
    assert_eq!(vm.memory()[0], 1);
}

#[test]
fn jump_if_zero_goes_to_the_partner() {
    let mut vm = VM::with_memory_size("[+]+", false, 1).unwrap();
    assert_eq!(vm.run(1), Ok(Action::Pause));
    assert_eq!(vm.pc(), 2);
    assert_eq!(vm.run(1), Ok(Action::Pause));
    assert_eq!(vm.pc(), 3);
    assert_eq!(vm.run(10), Ok(Action::Halt));
    assert_eq!(vm.memory()[0], 1);
}

#[test]
fn jump_if_nonzero_goes_back_to_the_partner() {
    let mut vm = VM::with_memory_size("++[-]", false, 1).unwrap();
    assert_eq!(vm.run(5), Ok(Action::Pause));
    assert_eq!(vm.pc(), 2);
    assert_eq!(vm.memory()[0], 1);
    assert_eq!(vm.run(100), Ok(Action::Halt));
    assert_eq!(vm.memory()[0], 0);
    assert_eq!(vm.pc(), 5);
}

#[test]
fn echo_until_zero() {
    let mut vm = VM::with_memory_size(",[.,]", false, 4).unwrap();
    let (output, result) = drive(&mut vm, b"hey\0", 1000);
    assert_eq!(output, b"hey".to_vec());
    assert_eq!(result, Ok(Action::Halt));
}

#[test]
fn multiplication_program_prints_a_letter() {
    let source = "++++++++[>++++++++<-]>+.";
    let mut vm = VM::with_memory_size(source, false, 2).unwrap();
    let (output, result) = drive(&mut vm, &[], 7);
    assert_eq!(output, vec![65]);
    assert_eq!(result, Ok(Action::Halt));
    assert_eq!(*vm.memory(), vec![0, 65]);
}

#[test]
fn optimized_program_behaves_as_the_plain_one() {
    let sources = [
        "++++++++[>++++++++<-]>+.",
        ",>,<[->+<]>.",
        "+++>>>>",
        "<<+",
        ",[.,]",
        "++[>++[>++<-]<-]>>.",
        ">>>+++<<<---.>>>.",
    ];
    for source in sources {
        let mut plain = VM::with_memory_size(source, false, 4).unwrap();
        let mut fused = VM::with_memory_size(source, true, 4).unwrap();
        let input = [3u8, 4, 0];
        let (plain_output, plain_result) = drive(&mut plain, &input, 1000);
        let (fused_output, fused_result) = drive(&mut fused, &input, 1000);
        assert_eq!(plain_output, fused_output);
        assert_eq!(plain_result, fused_result);
        assert_eq!(plain.memory(), fused.memory());
    }
}

#[test]
fn hello_world() {
    let source = "++++++++[>++++[>++>+++>+++>+<<<<-]>+>+>->>+[<]<-]>>.>---.+++++++..+++.\
                  >>.<-.<.+++.------.--------.>>+.>++.";
    for optimize in [false, true] {
        let mut vm = VM::with_memory_size(source, optimize, 30000).unwrap();
        let (output, result) = drive(&mut vm, &[], usize::MAX);
        assert_eq!(output, b"Hello World!\n".to_vec());
        assert_eq!(result, Ok(Action::Halt));
        assert_eq!(vm.pc(), vm.code().len());
    }
}
