//! A tree-walking executor of fused programs against a fixed-size
//! wraparound tape, proved to implement the interpretation semantics
//! exactly, loop budget included.

use vstd::prelude::*;

use crate::bf_ir::ir_view_tok;
use crate::bf_ir::ir_wf_seq;
use crate::bf_ir::ir_wf_tok;
use crate::bf_ir::lemma_ir_height_le;
use crate::bf_ir::lemma_ir_view_seq_index;
use crate::bf_ir::lemma_ir_wf_seq_index;
use crate::bf_ir::lemma_map_of_adds_dom;
use crate::bf_ir::map_of_adds;
use crate::bf_ir::BfIrScope;
use crate::bf_ir::BfIrTok;
use crate::bf_ir::IrTokV;
use crate::bf_ir::Operation;
use crate::bf_ir::MAX_CELL_COUNT;
use crate::io_utils::ByteIo;
use crate::semantics::apply_modify;
use crate::semantics::apply_op;
use crate::semantics::interp;
use crate::semantics::lemma_modify_tape_insert;
use crate::semantics::modify_tape;
use crate::semantics::read_step;
use crate::semantics::aborts_to;
use crate::semantics::runs_to;
use crate::semantics::wf_state;
use crate::semantics::write_step;
use crate::semantics::Outcome;
use crate::semantics::StateV;

verus! {

/// Why a run ended without completing.
#[derive(Clone, Copy, PartialEq, Eq, Debug)]
pub enum RunError {
    /// A read past end-of-input under the aborting policy.
    EndOfInput,
    /// The caller's loop-iteration budget ran out first.
    StepLimit,
}

/// The mutable half of a run: the tape, the pointer and the streams.
struct RtData {
    stdio: ByteIo,
    data: Vec<u8>,
    data_ptr: usize,
}

impl RtData {
    /// The ghost machine state this runtime data denotes.
    spec fn st_view(&self) -> StateV {
        StateV {
            tape: self.data@,
            ptr: self.data_ptr as int,
            input: self.stdio.in_view(),
            eoi: self.stdio.eoi_view(),
            output: self.stdio.out_view(),
        }
    }

    spec fn wf(&self) -> bool {
        wf_state(self.st_view())
    }

    /// Execute one scope against the current state. `fuel` bounds loop
    /// iterations, forked exactly as the semantics forks it, so the
    /// outcome equals the semantics' outcome for this very budget.
    #[verifier::loop_isolation(false)]
    #[verifier::rlimit(100)]
    fn run_scope(&mut self, sc: &BfIrScope, fuel: u64) -> (r: Result<(), RunError>)
        requires
            old(self).wf(),
            ir_wf_seq(sc.toks@),
        ensures
            final(self).wf(),
            match r {
                Ok(()) => interp(sc@, old(self).st_view(), fuel as nat) == Outcome::Done(
                    final(self).st_view(),
                ),
                Err(RunError::EndOfInput) => interp(sc@, old(self).st_view(), fuel as nat)
                    == Outcome::Abort(final(self).st_view()),
                Err(RunError::StepLimit) => interp(sc@, old(self).st_view(), fuel as nat)
                    == Outcome::Pending,
            },
        decreases crate::bf_ir::ir_height_seq(sc@),
    {
        let ghost st0 = self.st_view();
        let ghost n = sc@.len();
        let mut ins_ptr: usize = 0;
        let mut fuel_left: u64 = fuel;
        proof {
            lemma_ir_view_seq_index(sc.toks@);
            lemma_ir_wf_seq_index(sc.toks@);
            assert(sc@.subrange(0, n as int) =~= sc@);
        }
        while ins_ptr < sc.toks.len()
            invariant
                self.wf(),
                ir_wf_seq(sc.toks@),
                n == sc@.len(),
                n == sc.toks@.len(),
                ins_ptr <= sc.toks@.len(),
                interp(sc@, st0, fuel as nat) == interp(
                    sc@.subrange(ins_ptr as int, n as int),
                    self.st_view(),
                    fuel_left as nat,
                ),
                forall|k: int| 0 <= k < n ==> #[trigger] sc@[k] == ir_view_tok(sc.toks@[k]),
                forall|k: int| 0 <= k < n ==> ir_wf_tok(#[trigger] sc.toks@[k]),
            decreases sc.toks@.len() - ins_ptr,
        {
            let ghost p_i = sc@.subrange(ins_ptr as int, n as int);
            let ghost p_next = sc@.subrange(ins_ptr as int + 1, n as int);
            proof {
                assert(p_i[0] == sc@[ins_ptr as int]);
                assert(p_i.subrange(1, p_i.len() as int) =~= p_next);
            }
            let tok = &sc.toks[ins_ptr];
            match tok {
                BfIrTok::Modify { adds, ptr_delta } => {
                    let ghost stb = self.st_view();
                    let ghost tape0 = self.data@;
                    let ghost ptr0 = self.data_ptr as int;
                    let ghost mfull = map_of_adds(adds@);
                    proof {
                        assert(ir_wf_tok(sc.toks@[ins_ptr as int]));
                        lemma_map_of_adds_dom(adds@);
                        assert(map_of_adds(adds@.subrange(0, 0)) =~= Map::<int, Operation>::empty());
                        assert(modify_tape(tape0, ptr0, map_of_adds(adds@.subrange(0, 0))) =~= tape0);
                    }
                    let mut k: usize = 0;
                    while k < adds.len()
                        invariant
                            k <= adds@.len(),
                            ir_wf_tok(sc.toks@[ins_ptr as int]),
                            sc.toks@[ins_ptr as int] == (BfIrTok::Modify {
                                adds: *adds,
                                ptr_delta: *ptr_delta,
                            }),
                            self.data@.len() == MAX_CELL_COUNT,
                            self.data_ptr == ptr0,
                            0 <= ptr0 < MAX_CELL_COUNT,
                            tape0.len() == MAX_CELL_COUNT,
                            self.stdio.in_view() == stb.input,
                            self.stdio.eoi_view() == stb.eoi,
                            self.stdio.out_view() == stb.output,
                            self.data@ == modify_tape(
                                tape0,
                                ptr0,
                                map_of_adds(adds@.subrange(0, k as int)),
                            ),
                        decreases adds@.len() - k,
                    {
                        let pair = adds[k];
                        let o = pair.0;
                        let op = pair.1;
                        let idx = (self.data_ptr + o) % MAX_CELL_COUNT;
                        let ghost mpre = map_of_adds(adds@.subrange(0, k as int));
                        proof {
                            assert((#[trigger] adds@[k as int]).0 < MAX_CELL_COUNT);
                            lemma_map_of_adds_dom(adds@.subrange(0, k as int));
                            assert(!mpre.dom().contains(o as int)) by {
                                if mpre.dom().contains(o as int) {
                                    let x = choose|x: int|
                                        0 <= x < adds@.subrange(0, k as int).len() && (
                                        #[trigger] adds@.subrange(0, k as int)[x]).0 == o;
                                    assert(adds@[x] == adds@.subrange(0, k as int)[x]);
                                    assert(adds@[x].0 == adds@[k as int].0);
                                }
                            }
                            lemma_modify_tape_insert(tape0, ptr0, mpre, o as int, op);
                            // this cell is untouched so far: its offset is fresh
                            assert(self.data@[idx as int] == tape0[idx as int]);
                            assert(adds@.subrange(0, k + 1).subrange(0, k as int) =~= adds@.subrange(
                                0,
                                k as int,
                            ));
                            assert(map_of_adds(adds@.subrange(0, k + 1)) == mpre.insert(
                                o as int,
                                op,
                            ));
                        }
                        let oldv = self.data[idx];
                        let newv = match op {
                            Operation::Add(d) => (((oldv as u16) + (d as u16)) % 256) as u8,
                            Operation::SetAbs(x) => x,
                        };
                        self.data[idx] = newv;
                        proof {
                            assert(newv == apply_op(tape0[idx as int], op));
                            assert(self.data@ =~= modify_tape(
                                tape0,
                                ptr0,
                                map_of_adds(adds@.subrange(0, k + 1)),
                            ));
                        }
                        k = k + 1;
                    }
                    proof {
                        assert(adds@.subrange(0, adds@.len() as int) =~= adds@);
                    }
                    self.data_ptr = (self.data_ptr + *ptr_delta) % MAX_CELL_COUNT;
                    proof {
                        assert(self.st_view() == apply_modify(stb, mfull, *ptr_delta as int));
                        assert(interp(p_i, stb, fuel_left as nat) == interp(
                            p_next,
                            self.st_view(),
                            fuel_left as nat,
                        ));
                    }
                },
                BfIrTok::Write => {
                    let ghost stb = self.st_view();
                    let b = self.data[self.data_ptr];
                    self.stdio.write_byte(b);
                    proof {
                        assert(self.st_view() == write_step(stb));
                        assert(interp(p_i, stb, fuel_left as nat) == interp(
                            p_next,
                            self.st_view(),
                            fuel_left as nat,
                        ));
                    }
                },
                BfIrTok::Read => {
                    let ghost stb = self.st_view();
                    match self.stdio.read_byte() {
                        Some(b) => {
                            self.data[self.data_ptr] = b;
                            proof {
                                assert(read_step(stb) == Some(self.st_view())) by {
                                    if stb.input.len() > 0 {
                                        assert(self.st_view().tape =~= stb.tape.update(
                                            stb.ptr,
                                            stb.input[0],
                                        ));
                                    } else {
                                        assert(self.st_view().tape =~= stb.tape.update(stb.ptr, b));
                                    }
                                }
                                assert(interp(p_i, stb, fuel_left as nat) == interp(
                                    p_next,
                                    self.st_view(),
                                    fuel_left as nat,
                                ));
                            }
                        },
                        None => {
                            proof {
                                assert(self.st_view() == stb);
                                assert(read_step(stb) is None);
                                assert(interp(p_i, stb, fuel_left as nat) == Outcome::Abort(stb));
                            }
                            return Err(RunError::EndOfInput);
                        },
                    }
                },
                BfIrTok::Loop(inner) => {
                    proof {
                        assert(ir_wf_tok(sc.toks@[ins_ptr as int]));
                        assert(sc@[ins_ptr as int] == IrTokV::Loop(inner@));
                        lemma_ir_height_le(sc@, ins_ptr as int);
                    }
                    while self.data[self.data_ptr] != 0
                        invariant
                            self.wf(),
                            interp(sc@, st0, fuel as nat) == interp(
                                p_i,
                                self.st_view(),
                                fuel_left as nat,
                            ),
                        decreases fuel_left,
                    {
                        if fuel_left == 0 {
                            proof {
                                assert(interp(p_i, self.st_view(), 0nat) == Outcome::Pending);
                            }
                            return Err(RunError::StepLimit);
                        }
                        fuel_left = fuel_left - 1;
                        let ghost stb = self.st_view();
                        let res = self.run_scope(inner, fuel_left);
                        match res {
                            Ok(()) => {
                                proof {
                                    assert(interp(p_i, stb, (fuel_left + 1) as nat) == interp(
                                        p_i,
                                        self.st_view(),
                                        fuel_left as nat,
                                    ));
                                }
                            },
                            Err(RunError::EndOfInput) => {
                                proof {
                                    assert(interp(p_i, stb, (fuel_left + 1) as nat)
                                        == Outcome::Abort(self.st_view()));
                                }
                                return Err(RunError::EndOfInput);
                            },
                            Err(RunError::StepLimit) => {
                                proof {
                                    assert(interp(p_i, stb, (fuel_left + 1) as nat)
                                        == Outcome::Pending);
                                }
                                return Err(RunError::StepLimit);
                            },
                        }
                    }
                    proof {
                        assert(interp(p_i, self.st_view(), fuel_left as nat) == interp(
                            p_next,
                            self.st_view(),
                            fuel_left as nat,
                        ));
                    }
                },
            }
            ins_ptr = ins_ptr + 1;
        }
        proof {
            assert(sc@.subrange(ins_ptr as int, n as int) =~= Seq::<IrTokV>::empty());
            assert(interp(Seq::<IrTokV>::empty(), self.st_view(), fuel_left as nat)
                == Outcome::Done(self.st_view()));
        }
        Ok(())
    }
}

/// A program together with the state it runs against.
pub struct Interpreter {
    program: BfIrScope,
    data: RtData,
}

impl Interpreter {
    /// The program to be run.
    pub closed spec fn prog_view(&self) -> Seq<IrTokV> {
        self.program@
    }

    /// The machine state: tape, pointer, streams.
    pub closed spec fn st_view(&self) -> StateV {
        self.data.st_view()
    }

    pub closed spec fn wf(&self) -> bool {
        &&& self.data.wf()
        &&& ir_wf_seq(self.program.toks@)
    }

    /// A fresh interpreter: zeroed tape, pointer at cell 0, the given
    /// streams.
    pub fn new(program: BfIrScope, io: ByteIo) -> (r: Interpreter)
        requires
            ir_wf_seq(program.toks@),
        ensures
            r.wf(),
            r.prog_view() == program@,
            r.st_view() == (StateV {
                tape: Seq::<u8>::new(MAX_CELL_COUNT as nat, |i: int| 0u8),
                ptr: 0,
                input: io.in_view(),
                eoi: io.eoi_view(),
                output: io.out_view(),
            }),
    {
        let data = vec![0u8; MAX_CELL_COUNT];
        proof {
            assert(data@ =~= Seq::<u8>::new(MAX_CELL_COUNT as nat, |i: int| 0u8));
        }
        Interpreter { program, data: RtData { stdio: io, data, data_ptr: 0 } }
    }

    /// The same interpreter with the unread input replaced.
    pub fn with_stdin(self, input: Vec<u8>) -> (r: Interpreter)
        requires
            self.wf(),
        ensures
            r.wf(),
            r.prog_view() == self.prog_view(),
            r.st_view() == (StateV { input: input@, ..self.st_view() }),
    {
        let Interpreter { program, data } = self;
        let RtData { stdio, data: tape, data_ptr } = data;
        Interpreter {
            program,
            data: RtData { stdio: stdio.with_stdin(input), data: tape, data_ptr },
        }
    }

    /// The same interpreter with the output buffer replaced.
    pub fn with_stdout(self, output: Vec<u8>) -> (r: Interpreter)
        requires
            self.wf(),
        ensures
            r.wf(),
            r.prog_view() == self.prog_view(),
            r.st_view() == (StateV { output: output@, ..self.st_view() }),
    {
        let Interpreter { program, data } = self;
        let RtData { stdio, data: tape, data_ptr } = data;
        Interpreter {
            program,
            data: RtData { stdio: stdio.with_stdout(output), data: tape, data_ptr },
        }
    }

    /// Overwrite one tape cell, to prepare a starting state.
    pub fn set_cell(&mut self, idx: usize, val: u8)
        requires
            old(self).wf(),
            idx < MAX_CELL_COUNT,
        ensures
            final(self).wf(),
            final(self).prog_view() == old(self).prog_view(),
            final(self).st_view() == (StateV {
                tape: old(self).st_view().tape.update(idx as int, val),
                ..old(self).st_view()
            }),
    {
        self.data.data[idx] = val;
    }

    /// The byte a tape cell holds right now.
    pub fn cell(&self, idx: usize) -> (r: u8)
        requires
            self.wf(),
            idx < MAX_CELL_COUNT,
        ensures
            r == self.st_view().tape[idx as int],
    {
        self.data.data[idx]
    }

    /// The bytes written so far.
    pub fn output(&self) -> (r: &Vec<u8>)
        ensures
            r@ == self.st_view().output,
    {
        self.data.stdio.output()
    }

    /// Run the program to completion against the current state. `steps`
    /// bounds loop iterations only - straight-line code always finishes -
    /// and the result is exactly what the semantics assigns to that
    /// budget: completion, an end-of-input abort, or budget exhaustion.
    pub fn run(&mut self, steps: u64) -> (r: Result<(), RunError>)
        requires
            old(self).wf(),
        ensures
            final(self).wf(),
            final(self).prog_view() == old(self).prog_view(),
            match r {
                Ok(()) => interp(old(self).prog_view(), old(self).st_view(), steps as nat)
                    == Outcome::Done(final(self).st_view()),
                Err(RunError::EndOfInput) => interp(
                    old(self).prog_view(),
                    old(self).st_view(),
                    steps as nat,
                ) == Outcome::Abort(final(self).st_view()),
                Err(RunError::StepLimit) => interp(
                    old(self).prog_view(),
                    old(self).st_view(),
                    steps as nat,
                ) == Outcome::Pending,
            },
            r is Ok ==> runs_to(old(self).prog_view(), old(self).st_view(), final(self).st_view()),
    {
        let r = self.data.run_scope(&self.program, steps);
        proof {
            if r is Ok {
                assert(interp(self.program@, old(self).st_view(), steps as nat) == Outcome::Done(
                    self.st_view(),
                ));
            }
        }
        r
    }

    /// Run to completion and hand back the streams, so a caller can read
    /// the output; an incomplete run reports why instead.
    pub fn run_drop(self, steps: u64) -> (r: Result<ByteIo, RunError>)
        requires
            self.wf(),
        ensures
            match r {
                Ok(io) => exists|st2: StateV|
                    interp(self.prog_view(), self.st_view(), steps as nat) == Outcome::Done(st2)
                        && runs_to(self.prog_view(), self.st_view(), st2) && io.out_view()
                        == st2.output && io.in_view() == st2.input && io.eoi_view() == st2.eoi,
                Err(RunError::EndOfInput) => exists|st2: StateV|
                    interp(self.prog_view(), self.st_view(), steps as nat) == Outcome::Abort(st2)
                        && aborts_to(self.prog_view(), self.st_view(), st2),
                Err(RunError::StepLimit) => interp(self.prog_view(), self.st_view(), steps as nat)
                    == Outcome::Pending,
            },
    {
        let mut me = self;
        let r = me.run(steps);
        match r {
            Ok(()) => {
                proof {
                    assert(interp(self.prog_view(), self.st_view(), steps as nat) == Outcome::Done(
                        me.st_view(),
                    ));
                    assert(runs_to(self.prog_view(), self.st_view(), me.st_view()));
                }
                Ok(me.data.stdio)
            },
            Err(e) => {
                proof {
                    if e == RunError::EndOfInput {
                        assert(interp(self.prog_view(), self.st_view(), steps as nat)
                            == Outcome::Abort(me.st_view()));
                        assert(aborts_to(self.prog_view(), self.st_view(), me.st_view()));
                    }
                }
                Err(e)
            },
        }
    }
}

} // verus!
