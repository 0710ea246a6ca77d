// Structural behavior of the fuser and the peephole pipeline.

use bf_toolchain::bf_ir::BfIrScope;
use bf_toolchain::bf_ir::BfIrTok;
use bf_toolchain::bf_ir::Operation;
use bf_toolchain::bf_ir::MAX_CELL_COUNT;
use bf_toolchain::opt::peephole::default_peephole_opt;
use bf_toolchain::pipeline::OptPasses;

#[test]
fn pointer_jiggle_fuses_to_nothing() {
    // a net-zero pointer move with no cell mutation is eliminated on
    // construction, not kept as a no-op node
    let sc = BfIrScope::parse_sl(b"><");
    assert_eq!(sc.len_flat(), 0);
}

#[test]
fn straight_line_run_fuses_to_one_node() {
    let sc = BfIrScope::parse_sl(b"+>+<");
    assert_eq!(sc.len_flat(), 1);
    match &sc.toks()[0] {
        BfIrTok::Modify { adds, ptr_delta } => {
            assert_eq!(*ptr_delta, 0);
            assert_eq!(adds.clone(), vec![(0, Operation::Add(1)), (1, Operation::Add(1))]);
        },
        _ => panic!("expected a fused cell node"),
    }
}

#[test]
fn left_move_is_a_canonical_ring_residue() {
    let sc = BfIrScope::parse_sl(b"<");
    assert_eq!(sc.len_flat(), 1);
    match &sc.toks()[0] {
        BfIrTok::Modify { adds, ptr_delta } => {
            assert_eq!(adds.len(), 0);
            assert_eq!(*ptr_delta, MAX_CELL_COUNT - 1);
        },
        _ => panic!("expected a pointer move"),
    }
}

#[test]
fn zeroing_loop_reduces_to_a_store() {
    let sc = default_peephole_opt(BfIrScope::parse_sl(b"[-]"));
    assert_eq!(sc.len_flat(), 1);
    match &sc.toks()[0] {
        BfIrTok::Modify { adds, ptr_delta } => {
            assert_eq!(*ptr_delta, 0);
            assert_eq!(adds.clone(), vec![(0, Operation::SetAbs(0))]);
        },
        _ => panic!("the zeroing loop must become a store of zero"),
    }
}

#[test]
fn even_delta_loop_is_left_untouched() {
    let sc = default_peephole_opt(BfIrScope::parse_sl(b"[--]"));
    assert_eq!(sc.len_flat(), 1);
    assert!(matches!(&sc.toks()[0], BfIrTok::Loop(_)));
}

#[test]
fn store_folds_into_following_add() {
    // after the reduction, the produced store merges with its neighbour
    let sc = default_peephole_opt(BfIrScope::parse_sl(b"[-]+"));
    assert_eq!(sc.len_flat(), 1);
    match &sc.toks()[0] {
        BfIrTok::Modify { adds, ptr_delta } => {
            assert_eq!(*ptr_delta, 0);
            assert_eq!(adds.clone(), vec![(0, Operation::SetAbs(1))]);
        },
        _ => panic!("expected one folded store"),
    }
}

#[test]
fn one_instruction_tail_is_no_window_for_a_pair_pass() {
    // a pass asking for two instructions is never shown a shorter tail
    let sc = default_peephole_opt(BfIrScope::parse_sl(b"+"));
    assert_eq!(sc.len_flat(), 1);
}

#[test]
fn pipeline_is_idempotent_on_its_output() {
    for src in [
        &b"[-]+"[..],
        &b"+>+<"[..],
        &b"[--]"[..],
        &b"[[-]]"[..],
        &b"++[>++<-]>."[..],
        &b",[.,]"[..],
    ] {
        let once = default_peephole_opt(BfIrScope::parse_sl(src));
        let twice = default_peephole_opt(once.clone());
        assert_eq!(once, twice);
    }
}

#[test]
fn nested_zeroing_loop_is_not_rebuilt_as_zeroing() {
    // [[-]] : the inner loop becomes a store, which is not an odd add, so
    // the outer loop stays
    let sc = default_peephole_opt(BfIrScope::parse_sl(b"[[-]]"));
    assert_eq!(sc.len_flat(), 1);
    match &sc.toks()[0] {
        BfIrTok::Loop(inner) => {
            assert_eq!(inner.len_flat(), 1);
            assert!(matches!(&inner.toks()[0], BfIrTok::Modify { .. }));
        },
        _ => panic!("the outer loop must remain"),
    }
}

#[test]
fn pass_queue_applies_each_pass_once() {
    let mut pipeline = OptPasses::default_passes();
    let mut sc = BfIrScope::parse_sl(b"[-]+");
    let mut rounds = 0;
    loop {
        match pipeline.apply_next(sc.clone()) {
            Some(next) => {
                sc = next;
                rounds += 1;
            },
            None => break,
        }
    }
    assert_eq!(rounds, 4);
    assert_eq!(sc, default_peephole_opt(BfIrScope::parse_sl(b"[-]+")));
}

#[test]
fn custom_pass_list_can_be_empty() {
    let mut pipeline = OptPasses::from_passes(vec![]);
    assert!(pipeline.apply_next(BfIrScope::parse_sl(b"+")).is_none());
}
