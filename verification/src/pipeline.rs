//! The optimization pipeline driven pass by pass, so every intermediate
//! program is observable.

use vstd::prelude::*;

use crate::bf_ir::ir_height_seq;
use crate::bf_ir::ir_size_seq;
use crate::bf_ir::ir_wf_seq;
use crate::bf_ir::BfIrScope;
use crate::opt::peephole::apply_pass;
use crate::opt::peephole::is_modify_pair;
use crate::opt::peephole::is_ptr_move_pair;
use crate::opt::peephole::is_zeroing_loop;
use crate::opt::peephole::DataAddFold;
use crate::opt::peephole::DataAddSetFold;
use crate::opt::peephole::LoopSet0;
use crate::opt::peephole::PtrAddFold;
use crate::semantics::prog_equiv;

verus! {

/// One pass of the pipeline, as a closed set of known strategies.
#[derive(Clone, Copy, PartialEq, Eq, Debug)]
pub enum OptPass {
    /// Merge adjacent cell-mutation nodes.
    CombineAdd,
    /// Merge adjacent pure pointer moves.
    CombinePtrAdd,
    /// Reduce provably terminating zeroing loops to stores.
    LoopSet0Reduce,
    /// Merge again, folding the stores the reduction produced into their
    /// neighbours.
    CombineAddSet,
}

/// A queue of passes applied one at a time.
pub struct OptPasses {
    passes: Vec<OptPass>,
    idx: usize,
}

impl OptPasses {
    /// The passes still to be applied.
    pub closed spec fn remaining(&self) -> Seq<OptPass> {
        self.passes@.subrange(self.idx as int, self.passes@.len() as int)
    }

    pub closed spec fn wf(&self) -> bool {
        self.idx <= self.passes@.len()
    }

    /// The default pipeline: merge, merge pointer moves, reduce zeroing
    /// loops, merge the produced stores into their neighbours.
    pub fn default_passes() -> (r: Self)
        ensures
            r.wf(),
            r.remaining() == seq![
                OptPass::CombineAdd,
                OptPass::CombinePtrAdd,
                OptPass::LoopSet0Reduce,
                OptPass::CombineAddSet,
            ],
    {
        let mut v: Vec<OptPass> = Vec::new();
        v.push(OptPass::CombineAdd);
        v.push(OptPass::CombinePtrAdd);
        v.push(OptPass::LoopSet0Reduce);
        v.push(OptPass::CombineAddSet);
        let r = Self::from_passes(v);
        proof {
            assert(r.remaining() =~= seq![
                OptPass::CombineAdd,
                OptPass::CombinePtrAdd,
                OptPass::LoopSet0Reduce,
                OptPass::CombineAddSet,
            ]);
        }
        r
    }

    /// A pipeline of the given passes, in order.
    pub fn from_passes(passes: Vec<OptPass>) -> (r: Self)
        ensures
            r.wf(),
            r.remaining() == passes@,
    {
        let r = OptPasses { passes, idx: 0 };
        proof {
            assert(r.remaining() =~= r.passes@);
        }
        r
    }

    /// Apply the current pass to the program. Which pass ran is visible
    /// in the contract: each strategy makes strict progress on a program
    /// whose opening window it rewrites.
    fn apply_curr(&self, pass: OptPass, sc: BfIrScope) -> (r: BfIrScope)
        requires
            ir_wf_seq(sc.toks@),
        ensures
            ir_wf_seq(r.toks@),
            prog_equiv(sc@, r@),
            ir_size_seq(r@) <= ir_size_seq(sc@),
            ir_height_seq(r@) <= ir_height_seq(sc@),
            pass == OptPass::CombineAdd && sc.toks@.len() >= 2 && is_modify_pair(sc.toks@)
                ==> ir_size_seq(r@) < ir_size_seq(sc@),
            pass == OptPass::CombinePtrAdd && sc.toks@.len() >= 2 && is_ptr_move_pair(
                sc.toks@,
            ) ==> ir_size_seq(r@) < ir_size_seq(sc@),
            pass == OptPass::LoopSet0Reduce && sc.toks@.len() >= 1 && is_zeroing_loop(
                sc.toks@[0],
            ) ==> ir_size_seq(r@) < ir_size_seq(sc@),
            pass == OptPass::CombineAddSet && sc.toks@.len() >= 2 && is_modify_pair(sc.toks@)
                ==> ir_size_seq(r@) < ir_size_seq(sc@),
    {
        match pass {
            OptPass::CombineAdd => {
                let mut p = DataAddFold;
                apply_pass(sc, &mut p)
            },
            OptPass::CombinePtrAdd => {
                let mut p = PtrAddFold;
                apply_pass(sc, &mut p)
            },
            OptPass::LoopSet0Reduce => {
                let mut p = LoopSet0;
                apply_pass(sc, &mut p)
            },
            OptPass::CombineAddSet => {
                let mut p = DataAddSetFold;
                apply_pass(sc, &mut p)
            },
        }
    }

    /// Apply the next pass of the pipeline, or report that it is done.
    /// Each returned program provably means the same as the one given,
    /// and the pass at the head of the queue is the one that ran: its
    /// strict-progress obligation on a matching opening window carries
    /// over to the returned program.
    pub fn apply_next(&mut self, sc: BfIrScope) -> (r: Option<BfIrScope>)
        requires
            old(self).wf(),
            ir_wf_seq(sc.toks@),
        ensures
            final(self).wf(),
            old(self).remaining().len() == 0 ==> r is None && final(self).remaining() == old(
                self,
            ).remaining(),
            old(self).remaining().len() > 0 ==> {
                &&& final(self).remaining() == old(self).remaining().subrange(
                    1,
                    old(self).remaining().len() as int,
                )
                &&& r matches Some(sc2) && ir_wf_seq(sc2.toks@) && prog_equiv(sc@, sc2@)
                    && ir_size_seq(sc2@) <= ir_size_seq(sc@) && (old(self).remaining()[0]
                    == OptPass::CombineAdd && sc.toks@.len() >= 2 && is_modify_pair(sc.toks@)
                    ==> ir_size_seq(sc2@) < ir_size_seq(sc@)) && (old(self).remaining()[0]
                    == OptPass::CombinePtrAdd && sc.toks@.len() >= 2 && is_ptr_move_pair(
                    sc.toks@,
                ) ==> ir_size_seq(sc2@) < ir_size_seq(sc@)) && (old(self).remaining()[0]
                    == OptPass::LoopSet0Reduce && sc.toks@.len() >= 1 && is_zeroing_loop(
                    sc.toks@[0],
                ) ==> ir_size_seq(sc2@) < ir_size_seq(sc@)) && (old(self).remaining()[0]
                    == OptPass::CombineAddSet && sc.toks@.len() >= 2 && is_modify_pair(
                    sc.toks@,
                ) ==> ir_size_seq(sc2@) < ir_size_seq(sc@))
            },
    {
        if self.idx < self.passes.len() {
            let pass = self.passes[self.idx];
            proof {
                assert(old(self).remaining()[0] == pass);
            }
            self.idx = self.idx + 1;
            let r = self.apply_curr(pass, sc);
            proof {
                assert(self.remaining() =~= old(self).remaining().subrange(
                    1,
                    old(self).remaining().len() as int,
                ));
            }
            Some(r)
        } else {
            proof {
                assert(self.remaining() =~= old(self).remaining());
            }
            None
        }
    }
}

} // verus!
