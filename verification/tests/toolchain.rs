// End-to-end runs of parse, fuse, optimize and interpret.

use bf_toolchain::bf_ir::BfIrScope;
use bf_toolchain::interpret::Interpreter;
use bf_toolchain::interpret::RunError;
use bf_toolchain::io_utils::ByteIo;
use bf_toolchain::opt::peephole::default_peephole_opt;

const STEPS: u64 = 1_000_000;

fn greeting_program() -> String {
    // emit a zero byte, then each character of the greeting by clearing
    // the cell and counting up to it
    let mut program = String::from(".");
    for &c in b"Hello World! 255\n" {
        program.push_str("[-]");
        program.push_str(&"+".repeat(c as usize));
        program.push('.');
    }
    program
}

fn run_with(sc: BfIrScope, input: Vec<u8>) -> Vec<u8> {
    let interp = Interpreter::new(sc, ByteIo::new(input, Some(0)));
    let io = interp.run_drop(STEPS).unwrap();
    io.into_output()
}

#[test]
fn test_1_bf() {
    let program = greeting_program();
    let sc = BfIrScope::parse_sl(program.as_bytes());
    let out = run_with(sc, vec![]);
    assert_eq!(out, b"\0Hello World! 255\n".to_vec());
}

#[test]
fn greeting_optimized_output_is_identical() {
    let program = greeting_program();
    let plain = run_with(BfIrScope::parse_sl(program.as_bytes()), vec![]);
    let optimized = run_with(
        default_peephole_opt(BfIrScope::parse_sl(program.as_bytes())),
        vec![],
    );
    assert_eq!(plain, b"\0Hello World! 255\n".to_vec());
    assert_eq!(plain, optimized);
}

#[test]
fn three_increments_write_three() {
    let out = run_with(BfIrScope::parse_sl(b"+++."), vec![]);
    assert_eq!(out, vec![3u8]);

    let out = run_with(default_peephole_opt(BfIrScope::parse_sl(b"+++.")), vec![]);
    assert_eq!(out, vec![3u8]);
}

#[test]
fn zeroing_loop_clears_cell_five() {
    for optimize in [false, true] {
        let mut sc = BfIrScope::parse_sl(b"[-]");
        if optimize {
            sc = default_peephole_opt(sc);
        }
        let mut interp = Interpreter::new(sc, ByteIo::new(vec![], Some(0)));
        interp.set_cell(0, 5);
        interp.run(STEPS).unwrap();
        assert_eq!(interp.cell(0), 0);
    }
}

#[test]
fn even_delta_loop_does_not_terminate() {
    // an even delta never reaches zero from an odd start value; the step
    // budget runs out instead
    let sc = default_peephole_opt(BfIrScope::parse_sl(b"[--]"));
    let mut interp = Interpreter::new(sc, ByteIo::new(vec![], Some(0)));
    interp.set_cell(0, 5);
    assert_eq!(interp.run(1000), Err(RunError::StepLimit));
}

#[test]
fn ring_wraps_left_from_cell_zero() {
    // one step left of cell 0 is the last cell of the tape
    let sc = BfIrScope::parse_sl(b"<.");
    let mut interp = Interpreter::new(sc, ByteIo::new(vec![], Some(0)));
    interp.set_cell(bf_toolchain::bf_ir::MAX_CELL_COUNT - 1, 7);
    let mut out_interp = interp;
    out_interp.run(STEPS).unwrap();
    assert_eq!(out_interp.output().clone(), vec![7u8]);
}

#[test]
fn reads_consume_input_then_policy_byte() {
    let out = run_with(BfIrScope::parse_sl(b",.,."), vec![9]);
    assert_eq!(out, vec![9u8, 0u8]);
}

#[test]
fn multiply_loop_computes_six() {
    // two iterations each adding three to the next cell
    for optimize in [false, true] {
        let mut sc = BfIrScope::parse_sl(b"++[>+++<-]>.");
        if optimize {
            sc = default_peephole_opt(sc);
        }
        let out = run_with(sc, vec![]);
        assert_eq!(out, vec![6u8]);
    }
}

#[test]
fn echo_loop_copies_its_input() {
    // echo every byte until a zero arrives from the exhausted input
    let input = b"abc".to_vec();
    let plain = run_with(BfIrScope::parse_sl(b",[.,]"), input.clone());
    let optimized = run_with(default_peephole_opt(BfIrScope::parse_sl(b",[.,]")), input);
    assert_eq!(plain, b"abc".to_vec());
    assert_eq!(plain, optimized);
}

#[test]
fn optimizer_preserves_aborting_runs() {
    // under the failing policy both forms abort, with identical output
    // written up to the abort
    for src in [&b","[..], &b"+.,"[..], &b"[-]+.,"[..]] {
        let mut plain = Interpreter::new(BfIrScope::parse_sl(src), ByteIo::new(vec![], None));
        let mut opt = Interpreter::new(
            default_peephole_opt(BfIrScope::parse_sl(src)),
            ByteIo::new(vec![], None),
        );
        assert_eq!(plain.run(STEPS), Err(RunError::EndOfInput));
        assert_eq!(opt.run(STEPS), Err(RunError::EndOfInput));
        assert_eq!(plain.output(), opt.output());
    }
}

#[test]
fn read_past_end_aborts_under_failing_policy() {
    let sc = BfIrScope::parse_sl(b",");
    let interp = Interpreter::new(sc, ByteIo::new(vec![], None));
    match interp.run_drop(STEPS) {
        Err(RunError::EndOfInput) => (),
        _ => panic!("a read past end-of-input must abort under the failing policy"),
    }
}
