// The stream collaborator, the end-of-input policies, and the small
// library utilities.

use bf_toolchain::bf_ffi::Slice;
use bf_toolchain::bf_ir::BfIrScope;
use bf_toolchain::bf_ir::BfIrTok;
use bf_toolchain::interpret::Interpreter;
use bf_toolchain::interpret::RunError;
use bf_toolchain::io_utils::void;
use bf_toolchain::io_utils::ByteIo;
use bf_toolchain::io_utils::EOIEmit;
use bf_toolchain::io_utils::EOIPanic;

const STEPS: u64 = 1_000_000;

#[test]
fn void_substitutes_zero_bytes() {
    let sc = BfIrScope::parse_sl(b",.");
    let io = Interpreter::new(sc, void()).run_drop(STEPS).unwrap();
    assert_eq!(io.into_output(), vec![0u8]);
}

#[test]
fn emit_policy_substitutes_its_byte() {
    let sc = BfIrScope::parse_sl(b",.");
    let io = ByteIo::with_policy::<EOIEmit<3>>(vec![]);
    let out = Interpreter::new(sc, io).run_drop(STEPS).unwrap().into_output();
    assert_eq!(out, vec![3u8]);
}

#[test]
fn panic_policy_aborts_the_run() {
    let sc = BfIrScope::parse_sl(b",");
    let io = ByteIo::with_policy::<EOIPanic>(vec![]);
    assert_eq!(
        Interpreter::new(sc, io).run_drop(STEPS).err(),
        Some(RunError::EndOfInput)
    );
}

#[test]
fn with_stdin_replaces_the_input() {
    let sc = BfIrScope::parse_sl(b",.");
    let interp = Interpreter::new(sc, ByteIo::new(vec![1], Some(0))).with_stdin(vec![5]);
    assert_eq!(interp.run_drop(STEPS).unwrap().into_output(), vec![5u8]);
}

#[test]
fn with_stdout_replaces_the_buffer() {
    let sc = BfIrScope::parse_sl(b"+.");
    let interp = Interpreter::new(sc, ByteIo::new(vec![], Some(0))).with_stdout(vec![9]);
    assert_eq!(interp.run_drop(STEPS).unwrap().into_output(), vec![9u8, 1u8]);
}

#[test]
fn parse_reads_a_byte_source_to_its_end() {
    let from_reader = BfIrScope::parse(&b"+ comment +."[..]).unwrap();
    let from_slice = BfIrScope::parse_sl(b"+ comment +.");
    assert_eq!(from_reader, from_slice);
    assert_eq!(from_reader.len_flat(), 2);
}

#[test]
fn stray_closing_bracket_ends_the_parse() {
    // everything after the unmatched `]` is ignored, without an error
    let sc = BfIrScope::parse_sl(b"+]++++");
    assert_eq!(sc.len_flat(), 1);
    let out = Interpreter::new(sc, void()).run_drop(STEPS).unwrap();
    assert_eq!(out.into_output(), Vec::<u8>::new());
}

#[test]
fn unmatched_open_bracket_still_builds_its_loop() {
    let sc = BfIrScope::parse_sl(b"+[-");
    assert_eq!(sc.len_flat(), 2);
    assert!(matches!(&sc.toks()[1], BfIrTok::Loop(_)));
}

#[test]
fn recursive_length_counts_loop_bodies() {
    let sc = BfIrScope::parse_sl(b"+[++[+]]");
    assert_eq!(sc.len_flat(), 2);
    assert_eq!(sc.len(), 5);
}

#[test]
fn largest_subscope_reports_the_widest_scope() {
    let sc = BfIrScope::parse_sl(b"+[++[+]]");
    assert_eq!(sc.largest_subscope().len_flat(), 2);

    let sc = BfIrScope::parse_sl(b"-[+.+.+.]");
    assert_eq!(sc.largest_subscope().len_flat(), 6);
}

#[test]
fn modify_rebuilds_the_scope() {
    let sc = BfIrScope::parse_sl(b"+.");
    let shorter = sc.modify(|mut v| {
        v.pop();
        v
    });
    assert_eq!(shorter.len_flat(), 1);
}

#[test]
fn slice_round_trips_its_values() {
    let s = Slice::new_vec(vec![1u8, 2, 3]);
    assert_eq!(s.len(), 3);
    assert_eq!(s.clone().into_inner(), vec![1u8, 2, 3]);
    let s2 = Slice::new(vec![7i64; 40000]);
    assert_eq!(s2.len(), 40000);
}
