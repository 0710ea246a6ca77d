//! Peephole passes over sliding windows of fused instructions, and the
//! engine that applies one pass everywhere in a program, loop bodies
//! included. Every rewrite is proved to preserve the program's meaning.

use vstd::prelude::*;

use crate::bf_ir::adds_unique;
use crate::bf_ir::compose_op;
use crate::bf_ir::compose_op_exec;
use crate::bf_ir::find_key;
use crate::bf_ir::ir_height_seq;
use crate::bf_ir::ir_height_tok;
use crate::bf_ir::ir_size_seq;
use crate::bf_ir::ir_size_tok;
use crate::bf_ir::ir_view_seq;
use crate::bf_ir::ir_view_tok;
use crate::bf_ir::ir_wf_seq;
use crate::bf_ir::ir_wf_tok;
use crate::bf_ir::lemma_ir_height_app;
use crate::bf_ir::lemma_ir_height_le;
use crate::bf_ir::lemma_ir_size_app;
use crate::bf_ir::lemma_ir_view_seq_app;
use crate::bf_ir::lemma_ir_view_seq_index;
use crate::bf_ir::lemma_ir_view_seq_singleton;
use crate::bf_ir::lemma_ir_wf_seq_subrange;
use crate::bf_ir::lemma_ir_wf_seq_app;
use crate::bf_ir::lemma_ir_wf_seq_index;
use crate::bf_ir::lemma_map_of_adds_at;
use crate::bf_ir::lemma_map_of_adds_dom;
use crate::bf_ir::lemma_map_of_adds_update;
use crate::bf_ir::map_of_adds;
use crate::bf_ir::BfIrScope;
use crate::bf_ir::BfIrTok;
use crate::bf_ir::IrTokV;
use crate::bf_ir::Operation;
use crate::bf_ir::MAX_CELL_COUNT;
use crate::semantics::lemma_equiv_replace;
use crate::semantics::lemma_loop_congruence;
use crate::semantics::lemma_noop_modify_equiv;
use crate::semantics::lemma_pair_modify_equiv;
use crate::semantics::lemma_prog_equiv_trans;
use crate::semantics::lemma_shift_insert;
use crate::semantics::lemma_zeroing_equiv;
use crate::semantics::merge_maps;
use crate::semantics::prog_equiv;
use crate::semantics::set_zero_tok;
use crate::semantics::shift_map;
use crate::semantics::zeroing_body;

verus! {

/// What a pass asks the engine to do with the window it was shown.
pub enum PeepholeApply {
    /// Replace the first `count` instructions of the window with `new`.
    Replace { count: usize, new: Vec<BfIrTok> },
    /// Do not replace any instructions.
    Pass,
}

/// What a sound rewrite answer looks like for the window `w`: a `Replace`
/// swaps a nonempty prefix of the window for an equivalent, well-formed,
/// strictly smaller instruction sequence that nests no deeper.
pub open spec fn pass_step_ok(w: Seq<BfIrTok>, r: PeepholeApply) -> bool {
    match r {
        PeepholeApply::Replace { count, new } => {
            &&& 1 <= count <= w.len()
            &&& prog_equiv(ir_view_seq(w.subrange(0, count as int)), ir_view_seq(new@))
            &&& ir_wf_seq(new@)
            &&& ir_size_seq(ir_view_seq(new@)) < ir_size_seq(
                ir_view_seq(w.subrange(0, count as int)),
            )
            &&& ir_height_seq(ir_view_seq(new@)) <= ir_height_seq(
                ir_view_seq(w.subrange(0, count as int)),
            )
        },
        PeepholeApply::Pass => true,
    }
}

/// A local rewrite rule. The engine shows a pass every window of at least
/// `min_tokens` consecutive instructions; a loop counts as a single
/// instruction. A rewrite must satisfy `pass_step_ok`: it replaces a
/// nonempty prefix of the window with an equivalent, well-formed,
/// strictly smaller instruction sequence that nests no deeper; those
/// bounds are what let the engine itself terminate and preserve the
/// program's meaning. Beyond that, each pass pins its own behavior: it
/// rewrites exactly the windows `fires` describes, replacing
/// `rewrite_count` instructions with instructions that mean
/// `rewrite_view`.
pub trait PeepholePass: Sized {
    /// The minimum window length `apply` may be called with.
    spec fn min_tokens_spec(&self) -> usize;

    /// Does this pass rewrite the given window?
    spec fn fires(&self, w: Seq<BfIrTok>) -> bool;

    /// How many leading instructions a rewrite of this window replaces.
    spec fn rewrite_count(&self, w: Seq<BfIrTok>) -> int;

    /// The meaning of the instructions a rewrite of this window splices
    /// in.
    spec fn rewrite_view(&self, w: Seq<BfIrTok>) -> Seq<IrTokV>;

    fn min_tokens(&self) -> (r: usize)
        ensures
            r == self.min_tokens_spec(),
    ;

    fn apply(&mut self, instructions: &[BfIrTok]) -> (r: PeepholeApply)
        requires
            old(self).min_tokens_spec() <= instructions@.len(),
            ir_wf_seq(instructions@),
        ensures
            *final(self) == *old(self),
            pass_step_ok(instructions@, r),
            r is Replace <==> old(self).fires(instructions@),
            r matches PeepholeApply::Replace { count, new } ==> count == old(self).rewrite_count(
                instructions@,
            ) && ir_view_seq(new@) == old(self).rewrite_view(instructions@),
    ;
}

/// Merge the entry lists of two adjacent `Modify` nodes: the second
/// node's offsets are rotated by the first node's displacement, and
/// operations landing on one offset compose.
#[verifier::rlimit(100)]
fn merge_adds(a1: &Vec<(usize, Operation)>, pd1: usize, a2: &Vec<(usize, Operation)>) -> (r: Vec<
    (usize, Operation),
>)
    requires
        adds_unique(a1@),
        forall|i: int| 0 <= i < a1@.len() ==> (#[trigger] a1@[i]).0 < MAX_CELL_COUNT,
        pd1 < MAX_CELL_COUNT,
        adds_unique(a2@),
        forall|i: int| 0 <= i < a2@.len() ==> (#[trigger] a2@[i]).0 < MAX_CELL_COUNT,
    ensures
        adds_unique(r@),
        forall|i: int| 0 <= i < r@.len() ==> (#[trigger] r@[i]).0 < MAX_CELL_COUNT,
        map_of_adds(r@) == merge_maps(
            map_of_adds(a1@),
            shift_map(map_of_adds(a2@), pd1 as int, MAX_CELL_COUNT as int),
        ),
{
    let len_ring = MAX_CELL_COUNT;
    let mut acc: Vec<(usize, Operation)> = Vec::new();
    let mut j: usize = 0;
    while j < a1.len()
        invariant
            j <= a1@.len(),
            acc@ == a1@.subrange(0, j as int),
        decreases a1@.len() - j,
    {
        acc.push(a1[j]);
        j = j + 1;
    }
    assert(acc@ =~= a1@);
    let ghost m1 = map_of_adds(a1@);
    let ghost lr = MAX_CELL_COUNT as int;
    proof {
        assert(a2@.subrange(0, 0) =~= Seq::<(usize, Operation)>::empty());
        assert(shift_map(map_of_adds(a2@.subrange(0, 0)), pd1 as int, lr) =~= Map::<
            int,
            Operation,
        >::empty());
        assert(merge_maps(m1, Map::<int, Operation>::empty()) =~= m1);
    }
    let mut k: usize = 0;
    while k < a2.len()
        invariant
            k <= a2@.len(),
            len_ring == MAX_CELL_COUNT,
            adds_unique(a1@),
            forall|i: int| 0 <= i < a1@.len() ==> (#[trigger] a1@[i]).0 < MAX_CELL_COUNT,
            pd1 < MAX_CELL_COUNT,
            adds_unique(a2@),
            forall|i: int| 0 <= i < a2@.len() ==> (#[trigger] a2@[i]).0 < MAX_CELL_COUNT,
            adds_unique(acc@),
            forall|i: int| 0 <= i < acc@.len() ==> (#[trigger] acc@[i]).0 < MAX_CELL_COUNT,
            m1 == map_of_adds(a1@),
            lr == MAX_CELL_COUNT as int,
            map_of_adds(acc@) == merge_maps(
                m1,
                shift_map(map_of_adds(a2@.subrange(0, k as int)), pd1 as int, lr),
            ),
        decreases a2@.len() - k,
    {
        let (o, op) = a2[k];
        let o2 = (o + pd1) % len_ring;
        let ghost mpre = map_of_adds(a2@.subrange(0, k as int));
        let ghost msh = shift_map(mpre, pd1 as int, lr);
        let ghost mm = merge_maps(m1, msh);
        let ghost acc0 = acc@;
        proof {
            assert(a2@.subrange(0, k + 1).subrange(0, k as int) =~= a2@.subrange(0, k as int));
            assert(a2@.subrange(0, k + 1)[k as int] == a2@[k as int]);
            assert(map_of_adds(a2@.subrange(0, k + 1)) == mpre.insert(o as int, op));
            lemma_shift_insert(mpre, o as int, op, pd1 as int, lr);
            // the source offset is new among the first k entries
            lemma_map_of_adds_dom(a2@.subrange(0, k as int));
            assert(!mpre.dom().contains(o as int)) by {
                if mpre.dom().contains(o as int) {
                    let i = choose|i: int|
                        0 <= i < a2@.subrange(0, k as int).len() && (#[trigger] a2@.subrange(
                            0,
                            k as int,
                        )[i]).0 == o;
                    assert(a2@[i] == a2@.subrange(0, k as int)[i]);
                    assert(a2@[i].0 == a2@[k as int].0);
                }
            }
            // so the rotated offset is new in the rotated map
            assert(!msh.dom().contains(o2 as int)) by {
                if msh.dom().contains(o2 as int) {
                    vstd::arithmetic::div_mod::lemma_small_mod(pd1 as nat, lr as nat);
                    vstd::arithmetic::div_mod::lemma_sub_mod_noop(o + pd1, pd1 as int, lr);
                    vstd::arithmetic::div_mod::lemma_mod_twice(o + pd1, lr);
                    vstd::arithmetic::div_mod::lemma_small_mod(o as nat, lr as nat);
                    assert(((o2 as int) - (pd1 as int)) % lr == o as int);
                    assert(mpre.dom().contains(o as int));
                }
            }
            lemma_map_of_adds_dom(acc0);
        }
        let ghost goal = merge_maps(m1, msh.insert(o2 as int, op));
        proof {
            // the new target map is the old one with the rotated entry added
            let newval = if m1.dom().contains(o2 as int) {
                compose_op(m1[o2 as int], op)
            } else {
                op
            };
            assert(goal =~= mm.insert(o2 as int, newval));
        }
        match find_key(&acc, o2) {
            Some(i) => {
                let prev = acc[i];
                let composed = compose_op_exec(prev.1, op);
                acc.remove(i);
                acc.insert(i, (o2, composed));
                proof {
                    assert(acc@ =~= acc0.update(i as int, (o2, composed)));
                    lemma_map_of_adds_at(acc0, i as int);
                    // the existing entry came from the first node's map
                    assert(mm.dom().contains(o2 as int));
                    assert(m1.dom().contains(o2 as int));
                    assert(prev.1 == m1[o2 as int]);
                    lemma_map_of_adds_update(acc0, i as int, composed);
                    assert(map_of_adds(acc@) =~= goal);
                    assert(adds_unique(acc@)) by {
                        assert(forall|x: int|
                            0 <= x < acc@.len() ==> (#[trigger] acc@[x]).0 == acc0[x].0);
                    }
                }
            },
            None => {
                acc.push((o2, op));
                proof {
                    assert(acc@.subrange(0, acc@.len() - 1) =~= acc0);
                    assert(map_of_adds(acc@) == map_of_adds(acc0).insert(o2 as int, op));
                    // the offset is genuinely new, so the first node's map lacks it
                    assert(!mm.dom().contains(o2 as int));
                    assert(!m1.dom().contains(o2 as int));
                    assert(map_of_adds(acc@) =~= goal);
                    assert(adds_unique(acc@)) by {
                        assert(forall|x: int| 0 <= x < acc0.len() ==> acc@[x] == acc0[x]);
                        assert(forall|x: int|
                            0 <= x < acc0.len() ==> (#[trigger] acc@[x]).0 != o2);
                    }
                }
            },
        }
        k = k + 1;
    }
    proof {
        assert(a2@.subrange(0, a2@.len() as int) =~= a2@);
    }
    acc
}

/// Both leading instructions are `Modify` nodes.
pub open spec fn is_modify_pair(w: Seq<BfIrTok>) -> bool {
    &&& w[0] is Modify
    &&& w[1] is Modify
}

/// Both leading instructions are pure pointer moves: `Modify` nodes that
/// mutate no cell.
pub open spec fn is_ptr_move_pair(w: Seq<BfIrTok>) -> bool {
    &&& w[0] matches BfIrTok::Modify { adds: a1, ptr_delta: _ } && a1@.len() == 0
    &&& w[1] matches BfIrTok::Modify { adds: a2, ptr_delta: _ } && a2@.len() == 0
}

/// What merging the two leading `Modify` nodes of the window denotes:
/// the union of the offset maps, the second node's offsets rotated by
/// the first node's displacement and collisions composed by the algebra,
/// with the displacements added on the ring; a merge that neither
/// mutates a cell nor moves the pointer denotes nothing at all.
pub open spec fn merged_pair_view(w: Seq<BfIrTok>) -> Seq<IrTokV> {
    let p1 = w[0]->Modify_ptr_delta;
    let m = merge_maps(
        map_of_adds(w[0]->Modify_adds@),
        shift_map(map_of_adds(w[1]->Modify_adds@), p1 as int, MAX_CELL_COUNT as int),
    );
    let pd = (p1 + w[1]->Modify_ptr_delta) % (MAX_CELL_COUNT as int);
    if m.dom() == Set::<int>::empty() && pd == 0 {
        Seq::empty()
    } else {
        seq![IrTokV::Modify { adds: m, ptr_delta: pd }]
    }
}

/// Fold two adjacent `Modify` nodes into one by the composition algebra;
/// a merge that neither mutates a cell nor moves the pointer vanishes.
pub fn fold_adjacent_modify(instructions: &[BfIrTok]) -> (r: PeepholeApply)
    requires
        instructions@.len() >= 2,
        ir_wf_seq(instructions@),
    ensures
        pass_step_ok(instructions@, r),
        r is Replace <==> is_modify_pair(instructions@),
        r matches PeepholeApply::Replace { count, new } ==> count == 2 && ir_view_seq(new@)
            == merged_pair_view(instructions@),
{
    proof {
        lemma_ir_wf_seq_index(instructions@);
    }
    let t0 = vstd::slice::slice_index_get(instructions, 0);
    let t1 = vstd::slice::slice_index_get(instructions, 1);
    match (t0, t1) {
        (
            BfIrTok::Modify { adds: a1, ptr_delta: pd1 },
            BfIrTok::Modify { adds: a2, ptr_delta: pd2 },
        ) => {
            proof {
                assert(ir_wf_tok(instructions@[0]));
                assert(ir_wf_tok(instructions@[1]));
            }
            let merged = merge_adds(a1, *pd1, a2);
            let mpd = (*pd1 + *pd2) % MAX_CELL_COUNT;
            let ghost seg = instructions@.subrange(0, 2);
            let ghost m1 = map_of_adds(a1@);
            let ghost m2 = map_of_adds(a2@);
            let ghost lr = MAX_CELL_COUNT as int;
            let ghost vm = IrTokV::Modify {
                adds: merge_maps(m1, shift_map(m2, *pd1 as int, lr)),
                ptr_delta: (*pd1 + *pd2) % (MAX_CELL_COUNT as int),
            };
            proof {
                lemma_ir_view_seq_index(seg);
                assert(seg[0] == instructions@[0]);
                assert(seg[1] == instructions@[1]);
                assert(ir_view_seq(seg) =~= seq![
                    ir_view_tok(instructions@[0]),
                    ir_view_tok(instructions@[1]),
                ]);
                lemma_pair_modify_equiv(m1, *pd1 as int, m2, *pd2 as int);
                // sizes: two cell nodes weigh two, their merge weighs at most one
                crate::bf_ir::lemma_ir_measure_seq2(
                    ir_view_tok(instructions@[0]),
                    ir_view_tok(instructions@[1]),
                );
                assert(ir_size_tok(ir_view_tok(instructions@[0])) == 1);
                assert(ir_size_tok(ir_view_tok(instructions@[1])) == 1);
                assert(ir_size_seq(ir_view_seq(seg)) == 2);
                assert(ir_height_seq(ir_view_seq(seg)) == 0);
            }
            if merged.len() == 0 && mpd == 0 {
                let new: Vec<BfIrTok> = Vec::new();
                proof {
                    assert(map_of_adds(merged@).dom() =~= Set::<int>::empty()) by {
                        lemma_map_of_adds_dom(merged@);
                    }
                    lemma_noop_modify_equiv(merge_maps(m1, shift_map(m2, *pd1 as int, lr)));
                    lemma_prog_equiv_trans(
                        ir_view_seq(seg),
                        seq![vm],
                        Seq::<IrTokV>::empty(),
                    );
                    assert(ir_view_seq(new@) =~= Seq::<IrTokV>::empty());
                    crate::bf_ir::lemma_ir_measure_seq0();
                    assert(ir_size_seq(ir_view_seq(new@)) == 0);
                    assert(ir_height_seq(ir_view_seq(new@)) == 0);
                    assert(merged_pair_view(instructions@) == Seq::<IrTokV>::empty());
                }
                PeepholeApply::Replace { count: 2, new }
            } else {
                let node = BfIrTok::Modify { adds: merged, ptr_delta: mpd };
                let mut new: Vec<BfIrTok> = Vec::new();
                new.push(node);
                proof {
                    assert(ir_view_seq(new@) =~= seq![ir_view_tok(new@[0])]) by {
                        lemma_ir_view_seq_index(new@);
                    }
                    assert(ir_view_tok(new@[0]) == vm);
                    assert(ir_wf_seq(new@)) by {
                        lemma_ir_wf_seq_index(new@);
                        assert(ir_wf_tok(new@[0]));
                    }
                    crate::bf_ir::lemma_ir_measure_seq1(vm);
                    assert(ir_size_tok(vm) == 1);
                    assert(ir_size_seq(ir_view_seq(new@)) == 1);
                    assert(ir_height_seq(ir_view_seq(new@)) == 0);
                    // the merge is not a vanishing no-op here
                    if merged@.len() > 0 {
                        lemma_map_of_adds_dom(merged@);
                        assert(map_of_adds(merged@).dom().contains(merged@[0].0 as int));
                        assert(map_of_adds(merged@).dom() != Set::<int>::empty()) by {
                            assert(!Set::<int>::empty().contains(merged@[0].0 as int));
                        }
                    }
                    assert(merged_pair_view(instructions@) == seq![vm]);
                }
                PeepholeApply::Replace { count: 2, new }
            }
        },
        _ => PeepholeApply::Pass,
    }
}

/// The leading instruction is a loop whose body is exactly one `Add` of
/// an odd delta on the entry cell with no net pointer move: the shape the
/// termination analysis accepts.
pub open spec fn is_zeroing_loop(t: BfIrTok) -> bool {
    &&& t matches BfIrTok::Loop(sc)
    &&& sc.toks@.len() == 1
    &&& sc.toks@[0] matches BfIrTok::Modify { adds, ptr_delta }
    &&& ptr_delta == 0
    &&& adds@.len() == 1
    &&& adds@[0].0 == 0
    &&& adds@[0].1 matches Operation::Add(d)
    &&& d % 2 == 1
}

/// Replace a self-terminating zeroing loop by a store of zero. The loop
/// must add an odd delta: only then does repeated addition modulo 256
/// provably reach zero; an even delta is left untouched.
pub fn loop_set0_step(instructions: &[BfIrTok]) -> (r: PeepholeApply)
    requires
        instructions@.len() >= 1,
        ir_wf_seq(instructions@),
    ensures
        pass_step_ok(instructions@, r),
        r is Replace <==> is_zeroing_loop(instructions@[0]),
        r matches PeepholeApply::Replace { count, new } ==> count == 1 && ir_view_seq(new@)
            == seq![set_zero_tok()],
{
    let t0 = vstd::slice::slice_index_get(instructions, 0);
    match t0 {
        BfIrTok::Loop(sc) => {
            if sc.toks.len() != 1 {
                return PeepholeApply::Pass;
            }
            let b0 = &sc.toks[0];
            match b0 {
                BfIrTok::Modify { adds, ptr_delta } => {
                    if *ptr_delta != 0 || adds.len() != 1 {
                        return PeepholeApply::Pass;
                    }
                    let (o, op) = adds[0];
                    if o != 0 {
                        return PeepholeApply::Pass;
                    }
                    match op {
                        Operation::Add(d) => {
                            if d % 2 != 1 {
                                return PeepholeApply::Pass;
                            }
                            // the loop provably terminates: rewrite it
                            let mut zadds: Vec<(usize, Operation)> = Vec::new();
                            zadds.push((0, Operation::SetAbs(0)));
                            let node = BfIrTok::Modify { adds: zadds, ptr_delta: 0 };
                            let mut new: Vec<BfIrTok> = Vec::new();
                            new.push(node);
                            proof {
                                let seg = instructions@.subrange(0, 1);
                                assert(seg[0] == instructions@[0]);
                                lemma_ir_view_seq_index(seg);
                                assert(ir_view_seq(seg) =~= seq![ir_view_tok(instructions@[0])]);
                                // the loop's view is exactly the zeroing shape
                                assert(ir_view_seq(sc.toks@) =~= seq![ir_view_tok(sc.toks@[0])])
                                    by {
                                    lemma_ir_view_seq_index(sc.toks@);
                                }
                                assert(map_of_adds(adds@) =~= map![0int => Operation::Add(d)])
                                    by {
                                    assert(adds@[0] == (o, op));
                                    assert(adds@.subrange(0, 0) =~= Seq::<
                                        (usize, Operation),
                                    >::empty());
                                    assert(map_of_adds(
                                        Seq::<(usize, Operation)>::empty(),
                                    ) =~= Map::<int, Operation>::empty());
                                }
                                assert(ir_view_tok(sc.toks@[0]) == (IrTokV::Modify {
                                    adds: map![0int => Operation::Add(d)],
                                    ptr_delta: 0,
                                }));
                                assert(ir_view_seq(sc.toks@) =~= zeroing_body(d));
                                assert(ir_view_tok(instructions@[0]) == IrTokV::Loop(
                                    zeroing_body(d),
                                ));
                                lemma_zeroing_equiv(d);
                                // the replacement's view is the store of zero
                                lemma_ir_view_seq_index(new@);
                                assert(map_of_adds(zadds@) =~= map![0int => Operation::SetAbs(
                                    0u8,
                                )]) by {
                                    assert(zadds@[0] == (0usize, Operation::SetAbs(0u8)));
                                    assert(zadds@.subrange(0, 0) =~= Seq::<
                                        (usize, Operation),
                                    >::empty());
                                    assert(map_of_adds(
                                        Seq::<(usize, Operation)>::empty(),
                                    ) =~= Map::<int, Operation>::empty());
                                }
                                assert(ir_view_tok(new@[0]) == set_zero_tok());
                                assert(ir_view_seq(new@) =~= seq![set_zero_tok()]);
                                assert(prog_equiv(ir_view_seq(seg), ir_view_seq(new@)));
                                // well-formed, smaller, flatter
                                assert(ir_wf_seq(new@)) by {
                                    lemma_ir_wf_seq_index(new@);
                                    assert(adds_unique(zadds@));
                                    assert(ir_wf_tok(new@[0]));
                                }
                                crate::bf_ir::lemma_ir_measure_seq1(set_zero_tok());
                                assert(ir_size_tok(set_zero_tok()) == 1);
                                assert(ir_size_seq(ir_view_seq(new@)) == 1);
                                assert(ir_height_seq(ir_view_seq(new@)) == 0);
                                crate::bf_ir::lemma_ir_measure_seq1(
                                    ir_view_tok(instructions@[0]),
                                );
                                crate::bf_ir::lemma_ir_measure_seq1(zeroing_body(d)[0]);
                                assert(zeroing_body(d) =~= seq![zeroing_body(d)[0]]);
                                assert(ir_size_tok(zeroing_body(d)[0]) == 1);
                                assert(ir_size_seq(zeroing_body(d)) == 1);
                                assert(ir_size_tok(ir_view_tok(instructions@[0])) == 2);
                                assert(ir_size_seq(ir_view_seq(seg)) == 2);
                            }
                            PeepholeApply::Replace { count: 1, new }
                        },
                        Operation::SetAbs(_) => PeepholeApply::Pass,
                    }
                },
                _ => PeepholeApply::Pass,
            }
        },
        _ => PeepholeApply::Pass,
    }
}

/// Apply one peephole pass everywhere in a program. The engine scans left
/// to right; at each position it re-invokes the pass until it reports no
/// match, splicing each replacement in immediately, then recursively
/// rewrites the body of a loop standing at that position, and moves on.
/// If fewer instructions remain than the pass's window minimum, the scan
/// ends. A pass's contract bounds every replacement, so a rewrite count
/// beyond the window cannot arise, and the result provably means the same
/// as the input. The scan also makes progress: a program whose opening
/// window the pass rewrites comes back strictly smaller, so returning the
/// input untouched is ruled out whenever the pass has work at the front.
///
/// One scan is not a fixpoint: positions once advanced past are not
/// rescanned, so a rewrite further right can create a window that an
/// earlier position would now match - that is why the default pipeline
/// runs the merge pass again after the zeroing reduction.
#[verifier::loop_isolation(false)]
#[verifier::rlimit(100)]
pub(crate) fn apply_pass<P: PeepholePass>(toks: BfIrScope, pass: &mut P) -> (r: BfIrScope)
    requires
        ir_wf_seq(toks.toks@),
    ensures
        ir_wf_seq(r.toks@),
        prog_equiv(toks@, r@),
        ir_size_seq(r@) <= ir_size_seq(toks@),
        ir_height_seq(r@) <= ir_height_seq(toks@),
        *final(pass) == *old(pass),
        old(pass).min_tokens_spec() <= toks.toks@.len() && toks.toks@.len() > 0 && old(
            pass,
        ).fires(toks.toks@) ==> ir_size_seq(r@) < ir_size_seq(toks@),
    decreases ir_height_seq(toks@),
{
    let ghost g0 = toks@;
    let ghost p0 = *pass;
    let ghost e1 = p0.min_tokens_spec() <= toks.toks@.len() && toks.toks@.len() > 0 && p0.fires(
        toks.toks@,
    );
    let mut cur = toks;
    let mut i: usize = 0;
    proof {
        crate::semantics::lemma_prog_equiv_refl(g0);
        assert(prog_equiv(g0, cur@));
    }
    while i < cur.toks.len()
        invariant
            ir_wf_seq(cur.toks@),
            prog_equiv(g0, cur@),
            ir_size_seq(cur@) <= ir_size_seq(g0),
            ir_height_seq(cur@) <= ir_height_seq(g0),
            i <= cur.toks.len(),
            *pass == p0,
            e1 ==> (i == 0 && cur.toks@ == toks.toks@) || ir_size_seq(cur@) < ir_size_seq(g0),
        decreases ir_size_seq(cur@), cur.toks@.len() - i,
    {
        let ghost size_at_entry = ir_size_seq(cur@);
        let ghost toks_at_entry = cur.toks@;
        // fire the pass at this position until it no longer matches
        let mut fired = true;
        while fired
            invariant
                ir_wf_seq(cur.toks@),
                prog_equiv(g0, cur@),
                ir_size_seq(cur@) <= size_at_entry,
                size_at_entry <= ir_size_seq(g0),
                ir_height_seq(cur@) <= ir_height_seq(g0),
                i <= cur.toks.len(),
                cur.toks@ == toks_at_entry || ir_size_seq(cur@) < size_at_entry,
                *pass == p0,
                e1 ==> (i == 0 && cur.toks@ == toks.toks@) || ir_size_seq(cur@) < ir_size_seq(
                    g0,
                ),
                !fired ==> (e1 ==> ir_size_seq(cur@) < ir_size_seq(g0)),
            decreases ir_size_seq(cur@), (if fired {
                1int
            } else {
                0int
            }),
        {
            let remaining = cur.toks.len() - i;
            if remaining < pass.min_tokens() {
                // too short a tail for this pass: the scan is over
                proof {
                    if e1 && i == 0 && cur.toks@ == toks.toks@ {
                        assert(false);
                    }
                }
                return cur;
            }
            let window = vstd::slice::slice_subrange(
                cur.toks.as_slice(),
                i,
                cur.toks.len(),
            );
            proof {
                lemma_ir_wf_seq_subrange(cur.toks@, i as int, cur.toks@.len() as int);
            }
            match pass.apply(window) {
                PeepholeApply::Pass => {
                    proof {
                        if e1 && !(ir_size_seq(cur@) < ir_size_seq(g0)) {
                            // the pass fires on this very window
                            assert(window@ =~= toks.toks@);
                            assert(false);
                        }
                    }
                    fired = false;
                },
                PeepholeApply::Replace { count, new } => {
                    let mut newv = new;
                    let ghost nv = newv@;
                    let ghost old_toks = cur.toks@;
                    let ghost pre = old_toks.subrange(0, i as int);
                    let ghost seg = old_toks.subrange(i as int, i + count);
                    let ghost post = old_toks.subrange(i + count, old_toks.len() as int);
                    let mut tail = cur.toks.split_off(i);
                    let mut rest = tail.split_off(count);
                    cur.toks.append(&mut newv);
                    cur.toks.append(&mut rest);
                    proof {
                        assert(old_toks =~= pre + seg + post);
                        assert(cur.toks@ =~= pre + nv + post);
                        assert(seg =~= window@.subrange(0, count as int));
                        // meaning is preserved through the context
                        lemma_ir_view_seq_app(pre, seg);
                        lemma_ir_view_seq_app(pre + seg, post);
                        lemma_ir_view_seq_app(pre, nv);
                        lemma_ir_view_seq_app(pre + nv, post);
                        assert(ir_view_seq(old_toks) =~= ir_view_seq(pre) + ir_view_seq(seg)
                            + ir_view_seq(post));
                        assert(ir_view_seq(cur.toks@) =~= ir_view_seq(pre) + ir_view_seq(nv)
                            + ir_view_seq(post));
                        lemma_equiv_replace(
                            ir_view_seq(pre),
                            ir_view_seq(seg),
                            ir_view_seq(nv),
                            ir_view_seq(post),
                        );
                        lemma_prog_equiv_trans(g0, ir_view_seq(old_toks), ir_view_seq(cur.toks@));
                        // still well-formed
                        lemma_ir_wf_seq_app(pre, seg);
                        lemma_ir_wf_seq_app(pre + seg, post);
                        lemma_ir_wf_seq_app(pre, nv);
                        lemma_ir_wf_seq_app(pre + nv, post);
                        // strictly smaller, no deeper
                        lemma_ir_size_app(ir_view_seq(pre), ir_view_seq(seg));
                        lemma_ir_size_app(ir_view_seq(pre) + ir_view_seq(seg), ir_view_seq(post));
                        lemma_ir_size_app(ir_view_seq(pre), ir_view_seq(nv));
                        lemma_ir_size_app(ir_view_seq(pre) + ir_view_seq(nv), ir_view_seq(post));
                        lemma_ir_height_app(ir_view_seq(pre), ir_view_seq(seg));
                        lemma_ir_height_app(ir_view_seq(pre) + ir_view_seq(seg), ir_view_seq(post));
                        lemma_ir_height_app(ir_view_seq(pre), ir_view_seq(nv));
                        lemma_ir_height_app(ir_view_seq(pre) + ir_view_seq(nv), ir_view_seq(post));
                    }
                },
            }
        }
        // the tail may have been consumed entirely by a final rewrite
        if i >= cur.toks.len() {
            break ;
        }
        // a loop at this position has its body rewritten in place
        {
            let is_loop = match &cur.toks[i] {
                BfIrTok::Loop(_) => true,
                _ => false,
            };
            if is_loop {
                let ghost old_toks = cur.toks@;
                let ghost pre = old_toks.subrange(0, i as int);
                let ghost post = old_toks.subrange(i + 1, old_toks.len() as int);
                let tok = cur.toks.remove(i);
                match tok {
                    BfIrTok::Loop(inner) => {
                        proof {
                            lemma_ir_wf_seq_index(old_toks);
                            assert(ir_wf_tok(old_toks[i as int]));
                            lemma_ir_view_seq_index(old_toks);
                            lemma_ir_height_le(ir_view_seq(old_toks), i as int);
                            assert(ir_height_tok(ir_view_tok(old_toks[i as int])) == 1
                                + ir_height_seq(ir_view_seq(inner.toks@)));
                        }
                        let inner2 = apply_pass(inner, pass);
                        let newtok = BfIrTok::Loop(inner2);
                        cur.toks.insert(i, newtok);
                        proof {
                            let vold = ir_view_tok(old_toks[i as int]);
                            let vnew = ir_view_tok(newtok);
                            assert(old_toks =~= pre + seq![old_toks[i as int]] + post);
                            assert(cur.toks@ =~= pre + seq![newtok] + post);
                            lemma_ir_view_seq_singleton(old_toks[i as int]);
                            lemma_ir_view_seq_singleton(newtok);
                            lemma_ir_view_seq_app(pre, seq![old_toks[i as int]]);
                            lemma_ir_view_seq_app(pre + seq![old_toks[i as int]], post);
                            lemma_ir_view_seq_app(pre, seq![newtok]);
                            lemma_ir_view_seq_app(pre + seq![newtok], post);
                            lemma_loop_congruence(
                                ir_view_seq(inner.toks@),
                                ir_view_seq(inner2.toks@),
                            );
                            assert(seq![vold] == seq![
                                IrTokV::Loop(ir_view_seq(inner.toks@)),
                            ]);
                            assert(seq![vnew] == seq![
                                IrTokV::Loop(ir_view_seq(inner2.toks@)),
                            ]);
                            lemma_equiv_replace(
                                ir_view_seq(pre),
                                seq![vold],
                                seq![vnew],
                                ir_view_seq(post),
                            );
                            assert(ir_view_seq(old_toks) =~= ir_view_seq(pre) + seq![vold]
                                + ir_view_seq(post));
                            assert(ir_view_seq(cur.toks@) =~= ir_view_seq(pre) + seq![vnew]
                                + ir_view_seq(post));
                            lemma_prog_equiv_trans(
                                g0,
                                ir_view_seq(old_toks),
                                ir_view_seq(cur.toks@),
                            );
                            // well-formed
                            lemma_ir_wf_seq_app(pre, seq![old_toks[i as int]]);
                            lemma_ir_wf_seq_app(pre + seq![old_toks[i as int]], post);
                            lemma_ir_wf_seq_app(pre, seq![newtok]);
                            lemma_ir_wf_seq_app(pre + seq![newtok], post);
                            lemma_ir_wf_seq_index(seq![old_toks[i as int]]);
                            lemma_ir_wf_seq_index(seq![newtok]);
                            // sizes and heights
                            lemma_ir_size_app(ir_view_seq(pre), seq![vold]);
                            lemma_ir_size_app(ir_view_seq(pre) + seq![vold], ir_view_seq(post));
                            lemma_ir_size_app(ir_view_seq(pre), seq![vnew]);
                            lemma_ir_size_app(ir_view_seq(pre) + seq![vnew], ir_view_seq(post));
                            crate::bf_ir::lemma_ir_measure_seq1(vold);
                            crate::bf_ir::lemma_ir_measure_seq1(vnew);
                            lemma_ir_height_app(ir_view_seq(pre), seq![vold]);
                            lemma_ir_height_app(ir_view_seq(pre) + seq![vold], ir_view_seq(post));
                            lemma_ir_height_app(ir_view_seq(pre), seq![vnew]);
                            lemma_ir_height_app(ir_view_seq(pre) + seq![vnew], ir_view_seq(post));
                        }
                    },
                    other => {
                        // this arm is dead: the instruction here is a loop
                        cur.toks.insert(i, other);
                        proof {
                            assert(false);
                        }
                    },
                }
            }
        }
        i = i + 1;
    }
    proof {
        if e1 && i == 0 && cur.toks@ == toks.toks@ {
            assert(false);
        }
    }
    cur
}

/// Merges two consecutive `Modify` nodes by the composition algebra.
pub struct DataAddFold;

impl PeepholePass for DataAddFold {
    open spec fn min_tokens_spec(&self) -> usize {
        2
    }

    open spec fn fires(&self, w: Seq<BfIrTok>) -> bool {
        is_modify_pair(w)
    }

    open spec fn rewrite_count(&self, w: Seq<BfIrTok>) -> int {
        2
    }

    open spec fn rewrite_view(&self, w: Seq<BfIrTok>) -> Seq<IrTokV> {
        merged_pair_view(w)
    }

    fn min_tokens(&self) -> (r: usize) {
        2
    }

    fn apply(&mut self, instructions: &[BfIrTok]) -> (r: PeepholeApply) {
        fold_adjacent_modify(instructions)
    }
}

/// Merges two consecutive pure pointer moves (cell-free `Modify` nodes).
pub struct PtrAddFold;

impl PeepholePass for PtrAddFold {
    open spec fn min_tokens_spec(&self) -> usize {
        2
    }

    open spec fn fires(&self, w: Seq<BfIrTok>) -> bool {
        is_ptr_move_pair(w)
    }

    open spec fn rewrite_count(&self, w: Seq<BfIrTok>) -> int {
        2
    }

    open spec fn rewrite_view(&self, w: Seq<BfIrTok>) -> Seq<IrTokV> {
        merged_pair_view(w)
    }

    fn min_tokens(&self) -> (r: usize) {
        2
    }

    fn apply(&mut self, instructions: &[BfIrTok]) -> (r: PeepholeApply) {
        let t0 = vstd::slice::slice_index_get(instructions, 0);
        let t1 = vstd::slice::slice_index_get(instructions, 1);
        let both_moves = match (t0, t1) {
            (
                BfIrTok::Modify { adds: a1, ptr_delta: _ },
                BfIrTok::Modify { adds: a2, ptr_delta: _ },
            ) => a1.len() == 0 && a2.len() == 0,
            _ => false,
        };
        proof {
            assert(both_moves == is_ptr_move_pair(instructions@));
        }
        if both_moves {
            fold_adjacent_modify(instructions)
        } else {
            PeepholeApply::Pass
        }
    }
}

/// Replaces a provably terminating zeroing loop with a store of zero.
pub struct LoopSet0;

impl PeepholePass for LoopSet0 {
    open spec fn min_tokens_spec(&self) -> usize {
        1
    }

    open spec fn fires(&self, w: Seq<BfIrTok>) -> bool {
        is_zeroing_loop(w[0])
    }

    open spec fn rewrite_count(&self, w: Seq<BfIrTok>) -> int {
        1
    }

    open spec fn rewrite_view(&self, w: Seq<BfIrTok>) -> Seq<IrTokV> {
        seq![set_zero_tok()]
    }

    fn min_tokens(&self) -> (r: usize) {
        1
    }

    fn apply(&mut self, instructions: &[BfIrTok]) -> (r: PeepholeApply) {
        loop_set0_step(instructions)
    }
}

/// Merges adjacent `Modify` nodes again; in the default pipeline it runs
/// after the zeroing reduction, folding the stores that the reduction
/// produced into their neighbours.
pub struct DataAddSetFold;

impl PeepholePass for DataAddSetFold {
    open spec fn min_tokens_spec(&self) -> usize {
        2
    }

    open spec fn fires(&self, w: Seq<BfIrTok>) -> bool {
        is_modify_pair(w)
    }

    open spec fn rewrite_count(&self, w: Seq<BfIrTok>) -> int {
        2
    }

    open spec fn rewrite_view(&self, w: Seq<BfIrTok>) -> Seq<IrTokV> {
        merged_pair_view(w)
    }

    fn min_tokens(&self) -> (r: usize) {
        2
    }

    fn apply(&mut self, instructions: &[BfIrTok]) -> (r: PeepholeApply) {
        fold_adjacent_modify(instructions)
    }
}

/// The default optimization pipeline, in order: merge adjacent cell
/// nodes, merge adjacent pointer moves, reduce provably terminating
/// zeroing loops to stores, then merge again to fold the new stores into
/// their neighbours. The result is well-formed and provably finishes in
/// exactly the same states - in particular it writes the same output -
/// as the program it was given, from every well-formed start state.
pub fn default_peephole_opt(toks: BfIrScope) -> (r: BfIrScope)
    requires
        ir_wf_seq(toks.toks@),
    ensures
        ir_wf_seq(r.toks@),
        prog_equiv(toks@, r@),
        ir_size_seq(r@) <= ir_size_seq(toks@),
        ir_height_seq(r@) <= ir_height_seq(toks@),
        toks.toks@.len() >= 2 && is_modify_pair(toks.toks@) ==> ir_size_seq(r@) < ir_size_seq(
            toks@,
        ),
{
    let ghost g0 = toks@;
    let mut p1 = DataAddFold;
    let t1 = apply_pass(toks, &mut p1);
    let mut p2 = PtrAddFold;
    let t2 = apply_pass(t1, &mut p2);
    let mut p3 = LoopSet0;
    let t3 = apply_pass(t2, &mut p3);
    let ghost g2 = t2@;
    let mut p4 = DataAddSetFold;
    let t4 = apply_pass(t3, &mut p4);
    proof {
        lemma_prog_equiv_trans(g0, t1@, t2@);
        lemma_prog_equiv_trans(g0, t2@, t3@);
        lemma_prog_equiv_trans(g0, t3@, t4@);
    }
    t4
}

} // verus!
