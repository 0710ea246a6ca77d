//! The meaning of a fused program: a fuel-bounded big-step interpreter
//! over ghost states, and the equivalence relation the optimizer
//! preserves.

use vstd::calc;
use vstd::prelude::*;

use crate::bf_ir::compose_op;
use crate::bf_ir::IrTokV;
use crate::bf_ir::Operation;
use crate::bf_ir::MAX_CELL_COUNT;

verus! {

/// A machine state: the tape, the pointer, the input bytes not yet read,
/// the end-of-input policy (`None` aborts, `Some(b)` substitutes `b`
/// forever), and the bytes written so far.
pub struct StateV {
    pub tape: Seq<u8>,
    pub ptr: int,
    pub input: Seq<u8>,
    pub eoi: Option<u8>,
    pub output: Seq<u8>,
}

/// The tape has the fixed ring length and the pointer is on the ring.
pub open spec fn wf_state(st: StateV) -> bool {
    &&& st.tape.len() == MAX_CELL_COUNT
    &&& 0 <= st.ptr < st.tape.len()
}

/// One mutation of one cell, with 8-bit wraparound.
pub open spec fn apply_op(cell: u8, op: Operation) -> u8 {
    match op {
        Operation::Add(d) => ((cell + d) % 256) as u8,
        Operation::SetAbs(x) => x,
    }
}

/// Apply every offset's operation at once: the cell at absolute index `j`
/// is hit exactly when the canonical residue of `j - ptr` is an offset of
/// the map. Offsets that are not canonical residues address no cell.
pub open spec fn modify_tape(tape: Seq<u8>, ptr: int, adds: Map<int, Operation>) -> Seq<u8> {
    Seq::new(
        tape.len(),
        |j: int|
            {
                let off = (j - ptr) % (tape.len() as int);
                if adds.dom().contains(off) {
                    apply_op(tape[j], adds[off])
                } else {
                    tape[j]
                }
            },
    )
}

/// Execute a `Modify` node: mutate the addressed cells, then move the
/// pointer along the ring.
pub open spec fn apply_modify(st: StateV, adds: Map<int, Operation>, ptr_delta: int) -> StateV {
    StateV {
        tape: modify_tape(st.tape, st.ptr, adds),
        ptr: (st.ptr + ptr_delta) % (st.tape.len() as int),
        ..st
    }
}

/// Emit the current cell's byte, unmodified.
pub open spec fn write_step(st: StateV) -> StateV {
    StateV { output: st.output.push(st.tape[st.ptr]), ..st }
}

/// Consume one input byte into the current cell; past end-of-input the
/// policy substitutes a byte or refuses (`None`).
pub open spec fn read_step(st: StateV) -> Option<StateV> {
    if st.input.len() > 0 {
        Some(
            StateV {
                tape: st.tape.update(st.ptr, st.input[0]),
                input: st.input.subrange(1, st.input.len() as int),
                ..st
            },
        )
    } else {
        match st.eoi {
            Some(b) => Some(StateV { tape: st.tape.update(st.ptr, b), ..st }),
            None => None,
        }
    }
}

/// Result of running a program with a bounded loop budget: it finished,
/// it aborted on a refused read, or the budget ran out first.
pub enum Outcome {
    Done(StateV),
    Abort(StateV),
    Pending,
}

/// Big-step interpretation of a program from a state. `fuel` bounds loop
/// iterations only: straight-line code always completes.
pub open spec fn interp(p: Seq<IrTokV>, st: StateV, fuel: nat) -> Outcome
    decreases fuel, p.len(),
{
    if p.len() == 0 {
        Outcome::Done(st)
    } else {
        match p[0] {
            IrTokV::Modify { adds, ptr_delta } => interp(
                p.subrange(1, p.len() as int),
                apply_modify(st, adds, ptr_delta),
                fuel,
            ),
            IrTokV::Write => interp(p.subrange(1, p.len() as int), write_step(st), fuel),
            IrTokV::Read => match read_step(st) {
                Some(st2) => interp(p.subrange(1, p.len() as int), st2, fuel),
                None => Outcome::Abort(st),
            },
            IrTokV::Loop(body) => {
                if st.tape[st.ptr] == 0 {
                    interp(p.subrange(1, p.len() as int), st, fuel)
                } else if fuel == 0 {
                    Outcome::Pending
                } else {
                    match interp(body, st, (fuel - 1) as nat) {
                        Outcome::Done(st2) => interp(p, st2, (fuel - 1) as nat),
                        r => r,
                    }
                }
            },
        }
    }
}

/// The program, run from `st` with enough budget, finishes in state `r`.
pub open spec fn runs_to(p: Seq<IrTokV>, st: StateV, r: StateV) -> bool {
    exists|fuel: nat| interp(p, st, fuel) == Outcome::Done(r)
}

/// The program, run from `st` with enough budget, aborts in state `r`.
pub open spec fn aborts_to(p: Seq<IrTokV>, st: StateV, r: StateV) -> bool {
    exists|fuel: nat| interp(p, st, fuel) == Outcome::Abort(r)
}

/// Two programs behave identically from every well-formed start state:
/// they finish in exactly the same states, and they abort in exactly the
/// same states. In particular both completed and aborted runs emit
/// identical output.
pub open spec fn prog_equiv(p: Seq<IrTokV>, q: Seq<IrTokV>) -> bool {
    &&& forall|st: StateV, r: StateV|
        wf_state(st) ==> (#[trigger] runs_to(p, st, r) <==> #[trigger] runs_to(q, st, r))
    &&& forall|st: StateV, r: StateV|
        wf_state(st) ==> (#[trigger] aborts_to(p, st, r) <==> #[trigger] aborts_to(q, st, r))
}

/// Every program is equivalent to itself.
pub proof fn lemma_prog_equiv_refl(p: Seq<IrTokV>)
    ensures
        prog_equiv(p, p),
{
}

/// The instruction reads no input, at any nesting depth.
pub open spec fn read_free_tok(t: IrTokV) -> bool
    decreases t,
{
    match t {
        IrTokV::Read => false,
        IrTokV::Loop(body) => read_free_seq(body),
        _ => true,
    }
}

/// The program reads no input, at any nesting depth.
pub open spec fn read_free_seq(p: Seq<IrTokV>) -> bool
    decreases p, p.len(),
{
    if p.len() == 0 {
        true
    } else {
        read_free_tok(p[0]) && read_free_seq(p.subrange(1, p.len() as int))
    }
}

/// A program that never reads can never abort.
pub proof fn lemma_read_free_no_abort(p: Seq<IrTokV>, st: StateV, fuel: nat)
    requires
        read_free_seq(p),
    ensures
        !(interp(p, st, fuel) is Abort),
    decreases fuel, p.len(),
{
    if p.len() > 0 {
        let rest = p.subrange(1, p.len() as int);
        match p[0] {
            IrTokV::Modify { adds, ptr_delta } => {
                lemma_read_free_no_abort(rest, apply_modify(st, adds, ptr_delta), fuel);
            },
            IrTokV::Write => {
                lemma_read_free_no_abort(rest, write_step(st), fuel);
            },
            IrTokV::Read => {
                assert(!read_free_tok(p[0]));
            },
            IrTokV::Loop(body) => {
                assert(read_free_tok(p[0]));
                assert(read_free_seq(body));
                if st.tape[st.ptr] == 0 {
                    lemma_read_free_no_abort(rest, st, fuel);
                } else if fuel > 0 {
                    lemma_read_free_no_abort(body, st, (fuel - 1) as nat);
                    match interp(body, st, (fuel - 1) as nat) {
                        Outcome::Done(st2) => {
                            lemma_read_free_no_abort(p, st2, (fuel - 1) as nat);
                        },
                        _ => {},
                    }
                }
            },
        }
    }
}

/// A program that never reads aborts from no state.
pub proof fn lemma_never_aborts(p: Seq<IrTokV>, st: StateV, r: StateV)
    requires
        read_free_seq(p),
    ensures
        !aborts_to(p, st, r),
{
    if aborts_to(p, st, r) {
        let fuel = choose|fuel: nat| interp(p, st, fuel) == Outcome::Abort(r);
        lemma_read_free_no_abort(p, st, fuel);
    }
}

/// A settled outcome does not change when the budget grows.
pub proof fn lemma_interp_mono(p: Seq<IrTokV>, st: StateV, f1: nat, f2: nat)
    requires
        f1 <= f2,
        !(interp(p, st, f1) is Pending),
    ensures
        interp(p, st, f2) == interp(p, st, f1),
    decreases f1, p.len(),
{
    if p.len() == 0 {
    } else {
        let rest = p.subrange(1, p.len() as int);
        match p[0] {
            IrTokV::Modify { adds, ptr_delta } => {
                lemma_interp_mono(rest, apply_modify(st, adds, ptr_delta), f1, f2);
            },
            IrTokV::Write => {
                lemma_interp_mono(rest, write_step(st), f1, f2);
            },
            IrTokV::Read => {
                match read_step(st) {
                    Some(st2) => {
                        lemma_interp_mono(rest, st2, f1, f2);
                    },
                    None => {},
                }
            },
            IrTokV::Loop(body) => {
                if st.tape[st.ptr] == 0 {
                    lemma_interp_mono(rest, st, f1, f2);
                } else {
                    lemma_interp_mono(body, st, (f1 - 1) as nat, (f2 - 1) as nat);
                    match interp(body, st, (f1 - 1) as nat) {
                        Outcome::Done(st2) => {
                            lemma_interp_mono(p, st2, (f1 - 1) as nat, (f2 - 1) as nat);
                        },
                        _ => {},
                    }
                }
            },
        }
    }
}

/// Completed and aborted runs end in well-formed states.
pub proof fn lemma_interp_wf(p: Seq<IrTokV>, st: StateV, fuel: nat)
    requires
        wf_state(st),
    ensures
        interp(p, st, fuel) matches Outcome::Done(r) ==> wf_state(r),
        interp(p, st, fuel) matches Outcome::Abort(r) ==> wf_state(r),
    decreases fuel, p.len(),
{
    if p.len() == 0 {
    } else {
        let rest = p.subrange(1, p.len() as int);
        match p[0] {
            IrTokV::Modify { adds, ptr_delta } => {
                let st2 = apply_modify(st, adds, ptr_delta);
                assert(wf_state(st2));
                lemma_interp_wf(rest, st2, fuel);
            },
            IrTokV::Write => {
                lemma_interp_wf(rest, write_step(st), fuel);
            },
            IrTokV::Read => {
                match read_step(st) {
                    Some(st2) => {
                        lemma_interp_wf(rest, st2, fuel);
                    },
                    None => {},
                }
            },
            IrTokV::Loop(body) => {
                if st.tape[st.ptr] == 0 {
                    lemma_interp_wf(rest, st, fuel);
                } else if fuel > 0 {
                    lemma_interp_wf(body, st, (fuel - 1) as nat);
                    match interp(body, st, (fuel - 1) as nat) {
                        Outcome::Done(st2) => {
                            lemma_interp_wf(p, st2, (fuel - 1) as nat);
                        },
                        _ => {},
                    }
                }
            },
        }
    }
}

/// A lone `Modify` node finishes in exactly the state the update function
/// gives, whatever the budget.
pub proof fn lemma_single_modify(adds: Map<int, Operation>, ptr_delta: int, st: StateV, r: StateV)
    ensures
        runs_to(seq![IrTokV::Modify { adds, ptr_delta }], st, r) <==> r == apply_modify(
            st,
            adds,
            ptr_delta,
        ),
{
    let p = seq![IrTokV::Modify { adds, ptr_delta }];
    let st2 = apply_modify(st, adds, ptr_delta);
    assert(p[0] == (IrTokV::Modify { adds, ptr_delta }));
    assert(p.subrange(1, 1) =~= Seq::<IrTokV>::empty());
    assert forall|fuel: nat| interp(p, st, fuel) == Outcome::Done(st2) by {
        assert(interp(p, st, fuel) == interp(p.subrange(1, 1), st2, fuel));
        assert(interp(Seq::<IrTokV>::empty(), st2, fuel) == Outcome::Done(st2));
    }
    if runs_to(p, st, r) {
        let fuel = choose|fuel: nat| interp(p, st, fuel) == Outcome::Done(r);
        assert(interp(p, st, fuel) == Outcome::Done(st2));
    }
    assert(interp(p, st, 0) == Outcome::Done(st2));
}

/// Completed runs compose over concatenation: enough budget for both
/// halves is enough for the whole.
pub proof fn lemma_interp_app_bwd(
    a: Seq<IrTokV>,
    b: Seq<IrTokV>,
    st: StateV,
    m: StateV,
    r: StateV,
    f1: nat,
    f2: nat,
)
    requires
        interp(a, st, f1) == Outcome::Done(m),
        interp(b, m, f2) == Outcome::Done(r),
    ensures
        interp(a + b, st, (f1 + f2) as nat) == Outcome::Done(r),
    decreases f1, a.len(),
{
    if a.len() == 0 {
        assert(m == st);
        assert(a + b =~= b);
        lemma_interp_mono(b, m, f2, (f1 + f2) as nat);
    } else {
        let rest = a.subrange(1, a.len() as int);
        let ab = a + b;
        assert(ab[0] == a[0]);
        assert(ab.subrange(1, ab.len() as int) =~= rest + b);
        match a[0] {
            IrTokV::Modify { adds, ptr_delta } => {
                lemma_interp_app_bwd(rest, b, apply_modify(st, adds, ptr_delta), m, r, f1, f2);
            },
            IrTokV::Write => {
                lemma_interp_app_bwd(rest, b, write_step(st), m, r, f1, f2);
            },
            IrTokV::Read => {
                let st2 = read_step(st)->Some_0;
                lemma_interp_app_bwd(rest, b, st2, m, r, f1, f2);
            },
            IrTokV::Loop(body) => {
                if st.tape[st.ptr] == 0 {
                    lemma_interp_app_bwd(rest, b, st, m, r, f1, f2);
                } else {
                    let st2 = interp(body, st, (f1 - 1) as nat)->Done_0;
                    lemma_interp_mono(body, st, (f1 - 1) as nat, (f1 + f2 - 1) as nat);
                    lemma_interp_app_bwd(a, b, st2, m, r, (f1 - 1) as nat, f2);
                }
            },
        }
    }
}

/// A completed run of a concatenation splits into completed runs of the
/// halves through some midpoint state.
pub proof fn lemma_interp_app_fwd(a: Seq<IrTokV>, b: Seq<IrTokV>, st: StateV, r: StateV, fuel: nat)
    requires
        interp(a + b, st, fuel) == Outcome::Done(r),
    ensures
        exists|m: StateV| #[trigger] runs_to(a, st, m) && runs_to(b, m, r),
    decreases fuel, a.len(),
{
    let ab = a + b;
    if a.len() == 0 {
        assert(interp(a, st, 0) == Outcome::Done(st));
        assert(ab =~= b);
        assert(runs_to(a, st, st) && runs_to(b, st, r));
    } else {
        let rest = a.subrange(1, a.len() as int);
        assert(ab[0] == a[0]);
        assert(ab.subrange(1, ab.len() as int) =~= rest + b);
        match a[0] {
            IrTokV::Modify { adds, ptr_delta } => {
                let st2 = apply_modify(st, adds, ptr_delta);
                lemma_interp_app_fwd(rest, b, st2, r, fuel);
                let m = choose|m: StateV| #[trigger] runs_to(rest, st2, m) && runs_to(b, m, r);
                let fm = choose|fm: nat| interp(rest, st2, fm) == Outcome::Done(m);
                assert(interp(a, st, fm) == Outcome::Done(m));
                assert(runs_to(a, st, m) && runs_to(b, m, r));
            },
            IrTokV::Write => {
                let st2 = write_step(st);
                lemma_interp_app_fwd(rest, b, st2, r, fuel);
                let m = choose|m: StateV| #[trigger] runs_to(rest, st2, m) && runs_to(b, m, r);
                let fm = choose|fm: nat| interp(rest, st2, fm) == Outcome::Done(m);
                assert(interp(a, st, fm) == Outcome::Done(m));
                assert(runs_to(a, st, m) && runs_to(b, m, r));
            },
            IrTokV::Read => {
                let st2 = read_step(st)->Some_0;
                lemma_interp_app_fwd(rest, b, st2, r, fuel);
                let m = choose|m: StateV| #[trigger] runs_to(rest, st2, m) && runs_to(b, m, r);
                let fm = choose|fm: nat| interp(rest, st2, fm) == Outcome::Done(m);
                assert(interp(a, st, fm) == Outcome::Done(m));
                assert(runs_to(a, st, m) && runs_to(b, m, r));
            },
            IrTokV::Loop(body) => {
                if st.tape[st.ptr] == 0 {
                    lemma_interp_app_fwd(rest, b, st, r, fuel);
                    let m = choose|m: StateV| #[trigger] runs_to(rest, st, m) && runs_to(b, m, r);
                    let fm = choose|fm: nat| interp(rest, st, fm) == Outcome::Done(m);
                    assert(interp(a, st, fm) == Outcome::Done(m));
                    assert(runs_to(a, st, m) && runs_to(b, m, r));
                } else {
                    let st2 = interp(body, st, (fuel - 1) as nat)->Done_0;
                    lemma_interp_app_fwd(a, b, st2, r, (fuel - 1) as nat);
                    let m = choose|m: StateV| #[trigger] runs_to(a, st2, m) && runs_to(b, m, r);
                    let fa = choose|fa: nat| interp(a, st2, fa) == Outcome::Done(m);
                    let fbig = if fa > fuel - 1 {
                        fa
                    } else {
                        (fuel - 1) as nat
                    };
                    lemma_interp_mono(body, st, (fuel - 1) as nat, fbig);
                    lemma_interp_mono(a, st2, fa, fbig);
                    assert(interp(a, st, (fbig + 1) as nat) == Outcome::Done(m));
                    assert(runs_to(a, st, m) && runs_to(b, m, r));
                }
            },
        }
    }
}

/// `runs_to` distributes over concatenation.
pub proof fn lemma_runs_to_app(a: Seq<IrTokV>, b: Seq<IrTokV>, st: StateV, r: StateV)
    ensures
        runs_to(a + b, st, r) <==> exists|m: StateV|
            #[trigger] runs_to(a, st, m) && runs_to(b, m, r),
{
    if runs_to(a + b, st, r) {
        let fuel = choose|fuel: nat| interp(a + b, st, fuel) == Outcome::Done(r);
        lemma_interp_app_fwd(a, b, st, r, fuel);
    }
    if exists|m: StateV| #[trigger] runs_to(a, st, m) && runs_to(b, m, r) {
        let m = choose|m: StateV| #[trigger] runs_to(a, st, m) && runs_to(b, m, r);
        let f1 = choose|f1: nat| interp(a, st, f1) == Outcome::Done(m);
        let f2 = choose|f2: nat| interp(b, m, f2) == Outcome::Done(r);
        lemma_interp_app_bwd(a, b, st, m, r, f1, f2);
        assert(interp(a + b, st, (f1 + f2) as nat) == Outcome::Done(r));
    }
}

/// An aborted run of the first half aborts the whole concatenation, with
/// the same budget.
pub proof fn lemma_interp_app_abort_left(
    a: Seq<IrTokV>,
    b: Seq<IrTokV>,
    st: StateV,
    r: StateV,
    f: nat,
)
    requires
        interp(a, st, f) == Outcome::Abort(r),
    ensures
        interp(a + b, st, f) == Outcome::Abort(r),
    decreases f, a.len(),
{
    let rest = a.subrange(1, a.len() as int);
    let ab = a + b;
    assert(ab[0] == a[0]);
    assert(ab.subrange(1, ab.len() as int) =~= rest + b);
    match a[0] {
        IrTokV::Modify { adds, ptr_delta } => {
            lemma_interp_app_abort_left(rest, b, apply_modify(st, adds, ptr_delta), r, f);
        },
        IrTokV::Write => {
            lemma_interp_app_abort_left(rest, b, write_step(st), r, f);
        },
        IrTokV::Read => {
            match read_step(st) {
                Some(st2) => {
                    lemma_interp_app_abort_left(rest, b, st2, r, f);
                },
                None => {},
            }
        },
        IrTokV::Loop(body) => {
            if st.tape[st.ptr] == 0 {
                lemma_interp_app_abort_left(rest, b, st, r, f);
            } else {
                match interp(body, st, (f - 1) as nat) {
                    Outcome::Done(st2) => {
                        lemma_interp_app_abort_left(a, b, st2, r, (f - 1) as nat);
                    },
                    _ => {},
                }
            }
        },
    }
}

/// A completed first half followed by an aborted second half aborts the
/// whole concatenation.
pub proof fn lemma_interp_app_abort_right(
    a: Seq<IrTokV>,
    b: Seq<IrTokV>,
    st: StateV,
    m: StateV,
    r: StateV,
    f1: nat,
    f2: nat,
)
    requires
        interp(a, st, f1) == Outcome::Done(m),
        interp(b, m, f2) == Outcome::Abort(r),
    ensures
        interp(a + b, st, (f1 + f2) as nat) == Outcome::Abort(r),
    decreases f1, a.len(),
{
    if a.len() == 0 {
        assert(m == st);
        assert(a + b =~= b);
        lemma_interp_mono(b, m, f2, (f1 + f2) as nat);
    } else {
        let rest = a.subrange(1, a.len() as int);
        let ab = a + b;
        assert(ab[0] == a[0]);
        assert(ab.subrange(1, ab.len() as int) =~= rest + b);
        match a[0] {
            IrTokV::Modify { adds, ptr_delta } => {
                lemma_interp_app_abort_right(rest, b, apply_modify(st, adds, ptr_delta), m, r, f1, f2);
            },
            IrTokV::Write => {
                lemma_interp_app_abort_right(rest, b, write_step(st), m, r, f1, f2);
            },
            IrTokV::Read => {
                let st2 = read_step(st)->Some_0;
                lemma_interp_app_abort_right(rest, b, st2, m, r, f1, f2);
            },
            IrTokV::Loop(body) => {
                if st.tape[st.ptr] == 0 {
                    lemma_interp_app_abort_right(rest, b, st, m, r, f1, f2);
                } else {
                    let st2 = interp(body, st, (f1 - 1) as nat)->Done_0;
                    lemma_interp_mono(body, st, (f1 - 1) as nat, (f1 + f2 - 1) as nat);
                    lemma_interp_app_abort_right(a, b, st2, m, r, (f1 - 1) as nat, f2);
                }
            },
        }
    }
}

/// An aborted run of a concatenation lies in the first half, or passes
/// through a completed run of the first half.
pub proof fn lemma_interp_app_abort_fwd(
    a: Seq<IrTokV>,
    b: Seq<IrTokV>,
    st: StateV,
    r: StateV,
    fuel: nat,
)
    requires
        interp(a + b, st, fuel) == Outcome::Abort(r),
    ensures
        aborts_to(a, st, r) || exists|m: StateV| #[trigger] runs_to(a, st, m) && aborts_to(
            b,
            m,
            r,
        ),
    decreases fuel, a.len(),
{
    let ab = a + b;
    if a.len() == 0 {
        assert(interp(a, st, 0) == Outcome::Done(st));
        assert(ab =~= b);
        assert(runs_to(a, st, st) && aborts_to(b, st, r));
    } else {
        let rest = a.subrange(1, a.len() as int);
        assert(ab[0] == a[0]);
        assert(ab.subrange(1, ab.len() as int) =~= rest + b);
        match a[0] {
            IrTokV::Modify { adds, ptr_delta } => {
                let st2 = apply_modify(st, adds, ptr_delta);
                lemma_interp_app_abort_fwd(rest, b, st2, r, fuel);
                lemma_abort_fwd_step(a, rest, b, st, st2, r);
            },
            IrTokV::Write => {
                let st2 = write_step(st);
                lemma_interp_app_abort_fwd(rest, b, st2, r, fuel);
                lemma_abort_fwd_step(a, rest, b, st, st2, r);
            },
            IrTokV::Read => {
                match read_step(st) {
                    Some(st2) => {
                        lemma_interp_app_abort_fwd(rest, b, st2, r, fuel);
                        lemma_abort_fwd_step(a, rest, b, st, st2, r);
                    },
                    None => {
                        assert(interp(a, st, fuel) == Outcome::Abort(st));
                        assert(r == st);
                        assert(aborts_to(a, st, r));
                    },
                }
            },
            IrTokV::Loop(body) => {
                if st.tape[st.ptr] == 0 {
                    lemma_interp_app_abort_fwd(rest, b, st, r, fuel);
                    lemma_abort_fwd_step(a, rest, b, st, st, r);
                } else {
                    match interp(body, st, (fuel - 1) as nat) {
                        Outcome::Abort(x) => {
                            assert(interp(a, st, fuel) == Outcome::Abort(x));
                            assert(aborts_to(a, st, r));
                        },
                        Outcome::Done(st2) => {
                            lemma_interp_app_abort_fwd(a, b, st2, r, (fuel - 1) as nat);
                            if aborts_to(a, st2, r) {
                                let fa = choose|fa: nat|
                                    interp(a, st2, fa) == Outcome::Abort(r);
                                let fbig = if fa > fuel - 1 {
                                    fa
                                } else {
                                    (fuel - 1) as nat
                                };
                                lemma_interp_mono(body, st, (fuel - 1) as nat, fbig);
                                lemma_interp_mono(a, st2, fa, fbig);
                                assert(interp(a, st, (fbig + 1) as nat) == Outcome::Abort(r));
                                assert(aborts_to(a, st, r));
                            } else {
                                let m = choose|m: StateV|
                                    #[trigger] runs_to(a, st2, m) && aborts_to(b, m, r);
                                let fa = choose|fa: nat| interp(a, st2, fa) == Outcome::Done(m);
                                let fbig = if fa > fuel - 1 {
                                    fa
                                } else {
                                    (fuel - 1) as nat
                                };
                                lemma_interp_mono(body, st, (fuel - 1) as nat, fbig);
                                lemma_interp_mono(a, st2, fa, fbig);
                                assert(interp(a, st, (fbig + 1) as nat) == Outcome::Done(m));
                                assert(runs_to(a, st, m) && aborts_to(b, m, r));
                            }
                        },
                        Outcome::Pending => {},
                    }
                }
            },
        }
    }
}

/// Lift a split of a program's tail to a split of the program itself,
/// when the head instruction steps without fuel from `st` to `st2`.
proof fn lemma_abort_fwd_step(
    a: Seq<IrTokV>,
    rest: Seq<IrTokV>,
    b: Seq<IrTokV>,
    st: StateV,
    st2: StateV,
    r: StateV,
)
    requires
        a.len() > 0,
        rest == a.subrange(1, a.len() as int),
        forall|f: nat| #[trigger] interp(a, st, f) == interp(rest, st2, f),
        aborts_to(rest, st2, r) || exists|m: StateV| #[trigger] runs_to(rest, st2, m)
            && aborts_to(b, m, r),
    ensures
        aborts_to(a, st, r) || exists|m: StateV| #[trigger] runs_to(a, st, m) && aborts_to(
            b,
            m,
            r,
        ),
{
    if aborts_to(rest, st2, r) {
        let fx = choose|fx: nat| interp(rest, st2, fx) == Outcome::Abort(r);
        assert(interp(a, st, fx) == Outcome::Abort(r));
        assert(aborts_to(a, st, r));
    } else {
        let m = choose|m: StateV| #[trigger] runs_to(rest, st2, m) && aborts_to(b, m, r);
        let fm = choose|fm: nat| interp(rest, st2, fm) == Outcome::Done(m);
        assert(interp(a, st, fm) == Outcome::Done(m));
        assert(runs_to(a, st, m) && aborts_to(b, m, r));
    }
}

/// Aborted runs distribute over concatenation.
pub proof fn lemma_aborts_app(a: Seq<IrTokV>, b: Seq<IrTokV>, st: StateV, r: StateV)
    ensures
        aborts_to(a + b, st, r) <==> (aborts_to(a, st, r) || exists|m: StateV|
            #[trigger] runs_to(a, st, m) && aborts_to(b, m, r)),
{
    if aborts_to(a + b, st, r) {
        let fuel = choose|fuel: nat| interp(a + b, st, fuel) == Outcome::Abort(r);
        lemma_interp_app_abort_fwd(a, b, st, r, fuel);
    }
    if aborts_to(a, st, r) {
        let f = choose|f: nat| interp(a, st, f) == Outcome::Abort(r);
        lemma_interp_app_abort_left(a, b, st, r, f);
        assert(interp(a + b, st, f) == Outcome::Abort(r));
    }
    if exists|m: StateV| #[trigger] runs_to(a, st, m) && aborts_to(b, m, r) {
        let m = choose|m: StateV| #[trigger] runs_to(a, st, m) && aborts_to(b, m, r);
        let f1 = choose|f1: nat| interp(a, st, f1) == Outcome::Done(m);
        let f2 = choose|f2: nat| interp(b, m, f2) == Outcome::Abort(r);
        lemma_interp_app_abort_right(a, b, st, m, r, f1, f2);
        assert(interp(a + b, st, (f1 + f2) as nat) == Outcome::Abort(r));
    }
}

/// One unfolding of a lone loop: it exits at a zero cell, and otherwise
/// runs its body once and then re-enters.
pub proof fn lemma_loop_iter(body: Seq<IrTokV>, st: StateV, r: StateV)
    ensures
        st.tape[st.ptr] == 0 ==> (runs_to(seq![IrTokV::Loop(body)], st, r) <==> r == st),
        st.tape[st.ptr] != 0 ==> (runs_to(seq![IrTokV::Loop(body)], st, r) <==> exists|m: StateV|
            #[trigger] runs_to(body, st, m) && runs_to(seq![IrTokV::Loop(body)], m, r)),
{
    let p = seq![IrTokV::Loop(body)];
    assert(p[0] == IrTokV::Loop(body));
    assert(p.subrange(1, 1) =~= Seq::<IrTokV>::empty());
    if st.tape[st.ptr] == 0 {
        assert forall|fuel: nat| interp(p, st, fuel) == Outcome::Done(st) by {
            assert(interp(p, st, fuel) == interp(p.subrange(1, 1), st, fuel));
        }
        if runs_to(p, st, r) {
            let fuel = choose|fuel: nat| interp(p, st, fuel) == Outcome::Done(r);
        }
        assert(interp(p, st, 0) == Outcome::Done(st));
    } else {
        if runs_to(p, st, r) {
            let fuel = choose|fuel: nat| interp(p, st, fuel) == Outcome::Done(r);
            let m = interp(body, st, (fuel - 1) as nat)->Done_0;
            assert(interp(body, st, (fuel - 1) as nat) == Outcome::Done(m));
            assert(interp(p, m, (fuel - 1) as nat) == Outcome::Done(r));
            assert(runs_to(body, st, m) && runs_to(p, m, r));
        }
        if exists|m: StateV| #[trigger] runs_to(body, st, m) && runs_to(p, m, r) {
            let m = choose|m: StateV| #[trigger] runs_to(body, st, m) && runs_to(p, m, r);
            let f1 = choose|f1: nat| interp(body, st, f1) == Outcome::Done(m);
            let f2 = choose|f2: nat| interp(p, m, f2) == Outcome::Done(r);
            let fbig = if f1 > f2 {
                f1
            } else {
                f2
            };
            lemma_interp_mono(body, st, f1, fbig);
            lemma_interp_mono(p, m, f2, fbig);
            assert(interp(p, st, (fbig + 1) as nat) == Outcome::Done(r));
        }
    }
}

/// Simulation of one loop by another with an equivalent body.
proof fn lemma_loop_sim(b1: Seq<IrTokV>, b2: Seq<IrTokV>, st: StateV, r: StateV, fuel: nat)
    requires
        prog_equiv(b1, b2),
        wf_state(st),
        interp(seq![IrTokV::Loop(b1)], st, fuel) == Outcome::Done(r),
    ensures
        runs_to(seq![IrTokV::Loop(b2)], st, r),
    decreases fuel,
{
    let p1 = seq![IrTokV::Loop(b1)];
    let p2 = seq![IrTokV::Loop(b2)];
    assert(p1[0] == IrTokV::Loop(b1));
    assert(p1.subrange(1, 1) =~= Seq::<IrTokV>::empty());
    lemma_loop_iter(b2, st, r);
    if st.tape[st.ptr] == 0 {
        assert(interp(p1, st, fuel) == interp(p1.subrange(1, 1), st, fuel));
        assert(r == st);
    } else {
        let st2 = interp(b1, st, (fuel - 1) as nat)->Done_0;
        assert(interp(b1, st, (fuel - 1) as nat) == Outcome::Done(st2));
        assert(interp(p1, st2, (fuel - 1) as nat) == Outcome::Done(r));
        assert(runs_to(b1, st, st2));
        assert(runs_to(b2, st, st2));
        lemma_interp_wf(b1, st, (fuel - 1) as nat);
        lemma_loop_sim(b1, b2, st2, r, (fuel - 1) as nat);
        assert(runs_to(b2, st, st2) && runs_to(p2, st2, r));
    }
}

/// Simulation of one loop's aborted runs by another with an equivalent
/// body.
proof fn lemma_loop_sim_abort(b1: Seq<IrTokV>, b2: Seq<IrTokV>, st: StateV, r: StateV, fuel: nat)
    requires
        prog_equiv(b1, b2),
        wf_state(st),
        interp(seq![IrTokV::Loop(b1)], st, fuel) == Outcome::Abort(r),
    ensures
        aborts_to(seq![IrTokV::Loop(b2)], st, r),
    decreases fuel,
{
    let p1 = seq![IrTokV::Loop(b1)];
    let p2 = seq![IrTokV::Loop(b2)];
    assert(p1[0] == IrTokV::Loop(b1));
    assert(p1.subrange(1, 1) =~= Seq::<IrTokV>::empty());
    assert(p2[0] == IrTokV::Loop(b2));
    assert(p2.subrange(1, 1) =~= Seq::<IrTokV>::empty());
    // a loop over a zero cell finishes at once, so the cell is nonzero
    assert(st.tape[st.ptr] != 0) by {
        if st.tape[st.ptr] == 0 {
            assert(interp(p1, st, fuel) == interp(p1.subrange(1, 1), st, fuel));
        }
    }
    match interp(b1, st, (fuel - 1) as nat) {
        Outcome::Abort(x) => {
            assert(r == x);
            assert(aborts_to(b1, st, r));
            assert(aborts_to(b2, st, r));
            let f2 = choose|f2: nat| interp(b2, st, f2) == Outcome::Abort(r);
            assert(interp(p2, st, (f2 + 1) as nat) == Outcome::Abort(r));
        },
        Outcome::Done(st2) => {
            assert(interp(p1, st2, (fuel - 1) as nat) == Outcome::Abort(r));
            assert(runs_to(b1, st, st2));
            assert(runs_to(b2, st, st2));
            lemma_interp_wf(b1, st, (fuel - 1) as nat);
            lemma_loop_sim_abort(b1, b2, st2, r, (fuel - 1) as nat);
            let fb = choose|fb: nat| interp(b2, st, fb) == Outcome::Done(st2);
            let f2 = choose|f2: nat| interp(p2, st2, f2) == Outcome::Abort(r);
            let fbig = if fb > f2 {
                fb
            } else {
                f2
            };
            lemma_interp_mono(b2, st, fb, fbig);
            lemma_interp_mono(p2, st2, f2, fbig);
            assert(interp(p2, st, (fbig + 1) as nat) == Outcome::Abort(r));
        },
        Outcome::Pending => {},
    }
}

/// Equivalence is symmetric.
pub proof fn lemma_prog_equiv_sym(a: Seq<IrTokV>, b: Seq<IrTokV>)
    requires
        prog_equiv(a, b),
    ensures
        prog_equiv(b, a),
{
    assert forall|st: StateV, r: StateV| wf_state(st) implies (#[trigger] runs_to(b, st, r) <==> #[trigger] runs_to(
        a,
        st,
        r,
    )) by {
        assert(runs_to(a, st, r) <==> runs_to(b, st, r));
    }
    assert forall|st: StateV, r: StateV| wf_state(st) implies (#[trigger] aborts_to(b, st, r)
        <==> #[trigger] aborts_to(a, st, r)) by {
        assert(aborts_to(a, st, r) <==> aborts_to(b, st, r));
    }
}

/// Equivalent bodies give equivalent loops.
pub proof fn lemma_loop_congruence(b1: Seq<IrTokV>, b2: Seq<IrTokV>)
    requires
        prog_equiv(b1, b2),
    ensures
        prog_equiv(seq![IrTokV::Loop(b1)], seq![IrTokV::Loop(b2)]),
{
    let p1 = seq![IrTokV::Loop(b1)];
    let p2 = seq![IrTokV::Loop(b2)];
    lemma_prog_equiv_sym(b1, b2);
    assert forall|st: StateV, r: StateV| wf_state(st) implies (#[trigger] runs_to(p1, st, r) <==> #[trigger] runs_to(
        p2,
        st,
        r,
    )) by {
        if runs_to(p1, st, r) {
            let fuel = choose|fuel: nat| interp(p1, st, fuel) == Outcome::Done(r);
            lemma_loop_sim(b1, b2, st, r, fuel);
        }
        if runs_to(p2, st, r) {
            let fuel = choose|fuel: nat| interp(p2, st, fuel) == Outcome::Done(r);
            lemma_loop_sim(b2, b1, st, r, fuel);
        }
    }
    assert forall|st: StateV, r: StateV| wf_state(st) implies (#[trigger] aborts_to(p1, st, r)
        <==> #[trigger] aborts_to(p2, st, r)) by {
        if aborts_to(p1, st, r) {
            let fuel = choose|fuel: nat| interp(p1, st, fuel) == Outcome::Abort(r);
            lemma_loop_sim_abort(b1, b2, st, r, fuel);
        }
        if aborts_to(p2, st, r) {
            let fuel = choose|fuel: nat| interp(p2, st, fuel) == Outcome::Abort(r);
            lemma_loop_sim_abort(b2, b1, st, r, fuel);
        }
    }
}

/// One direction of context replacement.
proof fn lemma_equiv_replace_fwd(
    pre: Seq<IrTokV>,
    m1: Seq<IrTokV>,
    m2: Seq<IrTokV>,
    post: Seq<IrTokV>,
    st: StateV,
    r: StateV,
)
    requires
        prog_equiv(m1, m2),
        wf_state(st),
        runs_to(pre + m1 + post, st, r),
    ensures
        runs_to(pre + m2 + post, st, r),
{
    lemma_runs_to_app(pre + m1, post, st, r);
    let x = choose|x: StateV| #[trigger] runs_to(pre + m1, st, x) && runs_to(post, x, r);
    lemma_runs_to_app(pre, m1, st, x);
    let y = choose|y: StateV| #[trigger] runs_to(pre, st, y) && runs_to(m1, y, x);
    let fy = choose|fy: nat| interp(pre, st, fy) == Outcome::Done(y);
    lemma_interp_wf(pre, st, fy);
    assert(runs_to(m2, y, x));
    lemma_runs_to_app(pre, m2, st, x);
    assert(runs_to(pre + m2, st, x));
    lemma_runs_to_app(pre + m2, post, st, r);
    assert(runs_to(pre + m2 + post, st, r));
}

/// One direction of context replacement, for aborted runs.
proof fn lemma_equiv_replace_abort_fwd(
    pre: Seq<IrTokV>,
    m1: Seq<IrTokV>,
    m2: Seq<IrTokV>,
    post: Seq<IrTokV>,
    st: StateV,
    r: StateV,
)
    requires
        prog_equiv(m1, m2),
        wf_state(st),
        aborts_to(pre + m1 + post, st, r),
    ensures
        aborts_to(pre + m2 + post, st, r),
{
    lemma_aborts_app(pre + m1, post, st, r);
    if aborts_to(pre + m1, st, r) {
        lemma_aborts_app(pre, m1, st, r);
        if aborts_to(pre, st, r) {
            // the abort lies before the replaced segment
            lemma_aborts_app(pre, m2, st, r);
            assert(aborts_to(pre + m2, st, r));
        } else {
            let y = choose|y: StateV| #[trigger] runs_to(pre, st, y) && aborts_to(m1, y, r);
            let fy = choose|fy: nat| interp(pre, st, fy) == Outcome::Done(y);
            lemma_interp_wf(pre, st, fy);
            assert(aborts_to(m2, y, r));
            lemma_aborts_app(pre, m2, st, r);
            assert(aborts_to(pre + m2, st, r));
        }
        lemma_aborts_app(pre + m2, post, st, r);
        assert(aborts_to(pre + m2 + post, st, r));
    } else {
        let x = choose|x: StateV| #[trigger] runs_to(pre + m1, st, x) && aborts_to(post, x, r);
        lemma_runs_to_app(pre, m1, st, x);
        let y = choose|y: StateV| #[trigger] runs_to(pre, st, y) && runs_to(m1, y, x);
        let fy = choose|fy: nat| interp(pre, st, fy) == Outcome::Done(y);
        lemma_interp_wf(pre, st, fy);
        assert(runs_to(m2, y, x));
        lemma_runs_to_app(pre, m2, st, x);
        assert(runs_to(pre + m2, st, x));
        lemma_aborts_app(pre + m2, post, st, r);
        assert(aborts_to(pre + m2 + post, st, r));
    }
}

/// Replacing a segment by an equivalent one gives an equivalent program.
pub proof fn lemma_equiv_replace(
    pre: Seq<IrTokV>,
    m1: Seq<IrTokV>,
    m2: Seq<IrTokV>,
    post: Seq<IrTokV>,
)
    requires
        prog_equiv(m1, m2),
    ensures
        prog_equiv(pre + m1 + post, pre + m2 + post),
{
    lemma_prog_equiv_sym(m1, m2);
    assert forall|st: StateV, r: StateV| wf_state(st) implies (#[trigger] runs_to(
        pre + m1 + post,
        st,
        r,
    ) <==> #[trigger] runs_to(pre + m2 + post, st, r)) by {
        if runs_to(pre + m1 + post, st, r) {
            lemma_equiv_replace_fwd(pre, m1, m2, post, st, r);
        }
        if runs_to(pre + m2 + post, st, r) {
            lemma_equiv_replace_fwd(pre, m2, m1, post, st, r);
        }
    }
    assert forall|st: StateV, r: StateV| wf_state(st) implies (#[trigger] aborts_to(
        pre + m1 + post,
        st,
        r,
    ) <==> #[trigger] aborts_to(pre + m2 + post, st, r)) by {
        if aborts_to(pre + m1 + post, st, r) {
            lemma_equiv_replace_abort_fwd(pre, m1, m2, post, st, r);
        }
        if aborts_to(pre + m2 + post, st, r) {
            lemma_equiv_replace_abort_fwd(pre, m2, m1, post, st, r);
        }
    }
}

/// Rotate an offset map along the ring by `sh`.
pub open spec fn shift_map(m: Map<int, Operation>, sh: int, len: int) -> Map<int, Operation> {
    Map::new(
        |o: int| 0 <= o < len && m.dom().contains((o - sh) % len),
        |o: int| m[(o - sh) % len],
    )
}

/// Offset-wise union of two offset maps, composing where both are
/// present; the second map is the later one.
pub open spec fn merge_maps(m1: Map<int, Operation>, m2: Map<int, Operation>) -> Map<
    int,
    Operation,
> {
    Map::new(
        |o: int| m1.dom().contains(o) || m2.dom().contains(o),
        |o: int|
            if m2.dom().contains(o) {
                if m1.dom().contains(o) {
                    compose_op(m1[o], m2[o])
                } else {
                    m2[o]
                }
            } else {
                m1[o]
            },
    )
}

/// Composing two operations and applying once is applying them in turn.
pub proof fn lemma_apply_op_compose(cell: u8, op1: Operation, op2: Operation)
    ensures
        apply_op(apply_op(cell, op1), op2) == apply_op(cell, compose_op(op1, op2)),
{
    match op2 {
        Operation::Add(d2) => match op1 {
            Operation::Add(d1) => {
                vstd::arithmetic::div_mod::lemma_add_mod_noop(cell + d1, d2 as int, 256);
                vstd::arithmetic::div_mod::lemma_add_mod_noop_right(
                    cell as int,
                    d1 + d2,
                    256,
                );
                vstd::arithmetic::div_mod::lemma_mod_bound(cell + d1, 256);
                vstd::arithmetic::div_mod::lemma_mod_bound(d1 + d2, 256);
                vstd::arithmetic::div_mod::lemma_mod_bound(cell + d1 + d2, 256);
                assert(((cell + d1) % 256 + d2) % 256 == (cell + d1 + d2) % 256);
                assert((cell + (d1 + d2) % 256) % 256 == (cell + d1 + d2) % 256);
            },
            Operation::SetAbs(x) => {
                vstd::arithmetic::div_mod::lemma_add_mod_noop_right(x as int, d2 as int, 256);
                vstd::arithmetic::div_mod::lemma_mod_bound(x + d2, 256);
            },
        },
        Operation::SetAbs(y) => {},
    }
}

/// Executing the merge of two `Modify` nodes from any state is executing
/// the first and then the second: the second node's offsets are rotated
/// by the first node's displacement and the displacements add on the
/// ring.
#[verifier::rlimit(60)]
pub proof fn lemma_merge_modify(
    st: StateV,
    a1: Map<int, Operation>,
    pd1: int,
    a2: Map<int, Operation>,
    pd2: int,
)
    requires
        wf_state(st),
        0 <= pd1 < MAX_CELL_COUNT,
        0 <= pd2 < MAX_CELL_COUNT,
    ensures
        apply_modify(apply_modify(st, a1, pd1), a2, pd2) == apply_modify(
            st,
            merge_maps(a1, shift_map(a2, pd1, MAX_CELL_COUNT as int)),
            (pd1 + pd2) % (MAX_CELL_COUNT as int),
        ),
{
    let len = MAX_CELL_COUNT as int;
    let st1 = apply_modify(st, a1, pd1);
    let lhs = apply_modify(st1, a2, pd2);
    let sh2 = shift_map(a2, pd1, len);
    let mm = merge_maps(a1, sh2);
    let rhs = apply_modify(st, mm, (pd1 + pd2) % len);
    let ptr1 = (st.ptr + pd1) % len;

    // the pointers agree
    vstd::arithmetic::div_mod::lemma_mod_bound(st.ptr + pd1, len);
    vstd::arithmetic::div_mod::lemma_add_mod_noop(st.ptr + pd1, pd2, len);
    vstd::arithmetic::div_mod::lemma_add_mod_noop_right(st.ptr as int, pd1 + pd2, len);
    assert(lhs.ptr == (st.ptr + pd1 + pd2) % len);
    assert(rhs.ptr == (st.ptr + pd1 + pd2) % len);

    // the tapes agree, cell by cell
    assert forall|j: int| 0 <= j < len implies lhs.tape[j] == rhs.tape[j] by {
        let o1 = (j - st.ptr) % len;
        let o2 = (j - ptr1) % len;
        vstd::arithmetic::div_mod::lemma_mod_bound(j - st.ptr, len);
        vstd::arithmetic::div_mod::lemma_mod_bound(j - ptr1, len);
        // o2 is o1 rotated back by pd1
        vstd::arithmetic::div_mod::lemma_sub_mod_noop(j - st.ptr, pd1, len);
        vstd::arithmetic::div_mod::lemma_sub_mod_noop_right(j as int, st.ptr + pd1, len);
        assert((o1 - pd1) % len == (j - st.ptr - pd1) % len);
        assert(o2 == (j - st.ptr - pd1) % len);
        assert(sh2.dom().contains(o1) <==> a2.dom().contains(o2));
        if a2.dom().contains(o2) {
            assert(sh2[o1] == a2[o2]);
        }
        if a1.dom().contains(o1) && a2.dom().contains(o2) {
            lemma_apply_op_compose(st.tape[j], a1[o1], a2[o2]);
        }
    }
    assert(lhs.tape =~= rhs.tape);
    assert(lhs == rhs);
}

/// Adding one fresh offset to a `Modify` updates one more cell: the one
/// the new offset addresses, from its original value.
pub proof fn lemma_modify_tape_insert(
    tape0: Seq<u8>,
    ptr: int,
    m: Map<int, Operation>,
    o: int,
    op: Operation,
)
    requires
        tape0.len() == MAX_CELL_COUNT,
        0 <= ptr < MAX_CELL_COUNT,
        0 <= o < MAX_CELL_COUNT,
        !m.dom().contains(o),
    ensures
        modify_tape(tape0, ptr, m.insert(o, op)) =~= modify_tape(tape0, ptr, m).update(
            (ptr + o) % (MAX_CELL_COUNT as int),
            apply_op(tape0[(ptr + o) % (MAX_CELL_COUNT as int)], op),
        ),
{
    let len = MAX_CELL_COUNT as int;
    let jstar = (ptr + o) % len;
    vstd::arithmetic::div_mod::lemma_mod_bound(ptr + o, len);
    assert((jstar - ptr) % len == o) by {
        vstd::arithmetic::div_mod::lemma_small_mod(ptr as nat, len as nat);
        vstd::arithmetic::div_mod::lemma_sub_mod_noop(ptr + o, ptr, len);
        vstd::arithmetic::div_mod::lemma_mod_twice(ptr + o, len);
        vstd::arithmetic::div_mod::lemma_small_mod(o as nat, len as nat);
    }
    let lhs = modify_tape(tape0, ptr, m.insert(o, op));
    let rhs = modify_tape(tape0, ptr, m).update(jstar, apply_op(tape0[jstar], op));
    assert forall|j: int| 0 <= j < len implies lhs[j] == rhs[j] by {
        if j != jstar && (j - ptr) % len == o {
            vstd::arithmetic::div_mod::lemma_small_mod(ptr as nat, len as nat);
            vstd::arithmetic::div_mod::lemma_add_mod_noop(j - ptr, ptr, len);
            vstd::arithmetic::div_mod::lemma_small_mod(j as nat, len as nat);
            assert((((j - ptr) % len) + (ptr % len)) % len == j % len);
            assert((o + ptr) % len == j);
        }
    }
    assert(lhs =~= rhs);
}

/// A program aborts in at most one state from a given start state.
pub proof fn lemma_aborts_deterministic(p: Seq<IrTokV>, st: StateV, r1: StateV, r2: StateV)
    requires
        aborts_to(p, st, r1),
        aborts_to(p, st, r2),
    ensures
        r1 == r2,
{
    let f1 = choose|f1: nat| interp(p, st, f1) == Outcome::Abort(r1);
    let f2 = choose|f2: nat| interp(p, st, f2) == Outcome::Abort(r2);
    let fbig = if f1 > f2 {
        f1
    } else {
        f2
    };
    lemma_interp_mono(p, st, f1, fbig);
    lemma_interp_mono(p, st, f2, fbig);
}

/// Semantics preservation for aborted runs: whenever two equivalent
/// programs both abort from one well-formed state, they abort in the
/// same state, and in particular they have written identical output.
pub proof fn lemma_equiv_same_abort_output(
    p: Seq<IrTokV>,
    q: Seq<IrTokV>,
    st: StateV,
    r1: StateV,
    r2: StateV,
)
    requires
        prog_equiv(p, q),
        wf_state(st),
        aborts_to(p, st, r1),
        aborts_to(q, st, r2),
    ensures
        r1 == r2,
        r1.output == r2.output,
{
    assert(aborts_to(q, st, r1));
    lemma_aborts_deterministic(q, st, r1, r2);
}

/// The composition algebra is associative.
pub proof fn lemma_compose_assoc(x: Operation, y: Operation, z: Operation)
    ensures
        compose_op(compose_op(x, y), z) == compose_op(x, compose_op(y, z)),
{
    match (x, y, z) {
        (Operation::Add(d1), Operation::Add(d2), Operation::Add(d3)) => {
            vstd::arithmetic::div_mod::lemma_add_mod_noop(d1 + d2, d3 as int, 256);
            vstd::arithmetic::div_mod::lemma_add_mod_noop_right(d1 as int, d2 + d3, 256);
            vstd::arithmetic::div_mod::lemma_mod_bound(d1 + d2, 256);
            vstd::arithmetic::div_mod::lemma_mod_bound(d2 + d3, 256);
        },
        (Operation::SetAbs(a), Operation::Add(d2), Operation::Add(d3)) => {
            vstd::arithmetic::div_mod::lemma_add_mod_noop(a + d2, d3 as int, 256);
            vstd::arithmetic::div_mod::lemma_add_mod_noop_right(a as int, d2 + d3, 256);
            vstd::arithmetic::div_mod::lemma_mod_bound(a + d2, 256);
            vstd::arithmetic::div_mod::lemma_mod_bound(d2 + d3, 256);
        },
        _ => {},
    }
}

/// Offset-wise merging is associative.
pub proof fn lemma_merge_maps_assoc(
    a: Map<int, Operation>,
    b: Map<int, Operation>,
    c: Map<int, Operation>,
)
    ensures
        merge_maps(merge_maps(a, b), c) == merge_maps(a, merge_maps(b, c)),
{
    let lhs = merge_maps(merge_maps(a, b), c);
    let rhs = merge_maps(a, merge_maps(b, c));
    assert forall|o: int| lhs.dom().contains(o) && rhs.dom().contains(o) implies lhs[o] == rhs[o] by {
        if a.dom().contains(o) && b.dom().contains(o) && c.dom().contains(o) {
            lemma_compose_assoc(a[o], b[o], c[o]);
        }
    }
    assert(lhs =~= rhs);
}

/// Rotating distributes over merging.
pub proof fn lemma_shift_merge(
    a: Map<int, Operation>,
    b: Map<int, Operation>,
    sh: int,
    len: int,
)
    requires
        len > 0,
    ensures
        shift_map(merge_maps(a, b), sh, len) == merge_maps(
            shift_map(a, sh, len),
            shift_map(b, sh, len),
        ),
{
    assert(shift_map(merge_maps(a, b), sh, len) =~= merge_maps(
        shift_map(a, sh, len),
        shift_map(b, sh, len),
    ));
}

/// Two rotations are one rotation by the summed displacement.
pub proof fn lemma_shift_shift(m: Map<int, Operation>, s1: int, s2: int, len: int)
    requires
        len > 0,
        0 <= s1 < len,
        0 <= s2 < len,
    ensures
        shift_map(shift_map(m, s2, len), s1, len) == shift_map(m, (s1 + s2) % len, len),
{
    let lhs = shift_map(shift_map(m, s2, len), s1, len);
    let rhs = shift_map(m, (s1 + s2) % len, len);
    vstd::arithmetic::div_mod::lemma_mod_bound(s1 + s2, len);
    assert forall|o: int| (#[trigger] lhs.dom().contains(o)) <==> rhs.dom().contains(o) by {
        if 0 <= o < len {
            vstd::arithmetic::div_mod::lemma_mod_bound(o - s1, len);
            vstd::arithmetic::div_mod::lemma_small_mod(s2 as nat, len as nat);
            vstd::arithmetic::div_mod::lemma_sub_mod_noop(o - s1, s2, len);
            vstd::arithmetic::div_mod::lemma_sub_mod_noop_right(o, s1 + s2, len);
            assert(((o - s1) % len - s2 % len) % len == (o - s1 - s2) % len);
            assert(((o - s1) % len - s2) % len == (o - (s1 + s2) % len) % len);
        }
    }
    assert forall|o: int| lhs.dom().contains(o) && rhs.dom().contains(o) implies lhs[o]
        == rhs[o] by {
        vstd::arithmetic::div_mod::lemma_mod_bound(o - s1, len);
        vstd::arithmetic::div_mod::lemma_small_mod(s2 as nat, len as nat);
        vstd::arithmetic::div_mod::lemma_sub_mod_noop(o - s1, s2, len);
        vstd::arithmetic::div_mod::lemma_sub_mod_noop_right(o, s1 + s2, len);
        assert(((o - s1) % len - s2 % len) % len == (o - s1 - s2) % len);
        assert(((o - s1) % len - s2) % len == (o - (s1 + s2) % len) % len);
    }
    assert(lhs =~= rhs);
}

/// Merging three adjacent cell nodes is associative: folding from the
/// left or from the right yields the same offset map and the same net
/// displacement.
pub proof fn lemma_merge_assoc(
    a1: Map<int, Operation>,
    pd1: int,
    a2: Map<int, Operation>,
    pd2: int,
    a3: Map<int, Operation>,
    pd3: int,
)
    requires
        0 <= pd1 < MAX_CELL_COUNT,
        0 <= pd2 < MAX_CELL_COUNT,
        0 <= pd3 < MAX_CELL_COUNT,
    ensures
        merge_maps(
            merge_maps(a1, shift_map(a2, pd1, MAX_CELL_COUNT as int)),
            shift_map(a3, (pd1 + pd2) % (MAX_CELL_COUNT as int), MAX_CELL_COUNT as int),
        ) == merge_maps(
            a1,
            shift_map(
                merge_maps(a2, shift_map(a3, pd2, MAX_CELL_COUNT as int)),
                pd1,
                MAX_CELL_COUNT as int,
            ),
        ),
        ((pd1 + pd2) % (MAX_CELL_COUNT as int) + pd3) % (MAX_CELL_COUNT as int) == (pd1 + (pd2
            + pd3) % (MAX_CELL_COUNT as int)) % (MAX_CELL_COUNT as int),
{
    let len = MAX_CELL_COUNT as int;
    lemma_shift_merge(a2, shift_map(a3, pd2, len), pd1, len);
    lemma_shift_shift(a3, pd1, pd2, len);
    lemma_merge_maps_assoc(
        a1,
        shift_map(a2, pd1, len),
        shift_map(a3, (pd1 + pd2) % len, len),
    );
    vstd::arithmetic::div_mod::lemma_add_mod_noop(pd1 + pd2, pd3, len);
    vstd::arithmetic::div_mod::lemma_add_mod_noop_right(pd1, pd2 + pd3, len);
    vstd::arithmetic::div_mod::lemma_mod_bound(pd1 + pd2, len);
    vstd::arithmetic::div_mod::lemma_mod_bound(pd2 + pd3, len);
}

/// Euclidean position on a ring of length `len`: the canonical residue of
/// `ptr + delta`, for any integer displacement `delta`.
pub open spec fn ring_shift(ptr: int, delta: int, len: int) -> int {
    (ptr + delta) % len
}

/// Ring topology of the tape: one step left from cell 0 lands on the last
/// cell, and a full turn comes back.
pub proof fn lemma_ring_topology(len: int)
    requires
        len > 0,
    ensures
        ring_shift(0, -1, len) == len - 1,
        ring_shift(0, len, len) == 0,
        forall|ptr: int, delta: int| #[trigger] ring_shift(ptr, delta, len) == ring_shift(
            ptr,
            delta % len,
            len,
        ),
{
    vstd::arithmetic::div_mod::lemma_mod_add_multiples_vanish(-1, len);
    vstd::arithmetic::div_mod::lemma_small_mod((len - 1) as nat, len as nat);
    vstd::arithmetic::div_mod::lemma_mod_self_0(len);
    assert forall|ptr: int, delta: int| #[trigger] ring_shift(ptr, delta, len) == ring_shift(
        ptr,
        delta % len,
        len,
    ) by {
        vstd::arithmetic::div_mod::lemma_add_mod_noop_right(ptr, delta, len);
        vstd::arithmetic::div_mod::lemma_add_mod_noop_right(ptr, delta % len, len);
        vstd::arithmetic::div_mod::lemma_mod_twice(delta, len);
    }
}

/// A program finishes in at most one state from a given start state.
pub proof fn lemma_runs_to_deterministic(p: Seq<IrTokV>, st: StateV, r1: StateV, r2: StateV)
    requires
        runs_to(p, st, r1),
        runs_to(p, st, r2),
    ensures
        r1 == r2,
{
    let f1 = choose|f1: nat| interp(p, st, f1) == Outcome::Done(r1);
    let f2 = choose|f2: nat| interp(p, st, f2) == Outcome::Done(r2);
    let fbig = if f1 > f2 {
        f1
    } else {
        f2
    };
    lemma_interp_mono(p, st, f1, fbig);
    lemma_interp_mono(p, st, f2, fbig);
}

/// Semantics preservation, spelled out for the output stream: whenever
/// two equivalent programs both finish from one well-formed state, they
/// finish in the same state, and in particular they have written
/// identical output byte sequences.
pub proof fn lemma_equiv_same_output(
    p: Seq<IrTokV>,
    q: Seq<IrTokV>,
    st: StateV,
    r1: StateV,
    r2: StateV,
)
    requires
        prog_equiv(p, q),
        wf_state(st),
        runs_to(p, st, r1),
        runs_to(q, st, r2),
    ensures
        r1 == r2,
        r1.output == r2.output,
{
    assert(runs_to(q, st, r1));
    lemma_runs_to_deterministic(q, st, r1, r2);
}

/// Program equivalence is transitive.
pub proof fn lemma_prog_equiv_trans(a: Seq<IrTokV>, b: Seq<IrTokV>, c: Seq<IrTokV>)
    requires
        prog_equiv(a, b),
        prog_equiv(b, c),
    ensures
        prog_equiv(a, c),
{
    assert forall|st: StateV, r: StateV| wf_state(st) implies (#[trigger] runs_to(a, st, r) <==> #[trigger] runs_to(
        c,
        st,
        r,
    )) by {
        assert(runs_to(a, st, r) <==> runs_to(b, st, r));
        assert(runs_to(b, st, r) <==> runs_to(c, st, r));
    }
    assert forall|st: StateV, r: StateV| wf_state(st) implies (#[trigger] aborts_to(a, st, r)
        <==> #[trigger] aborts_to(c, st, r)) by {
        assert(aborts_to(a, st, r) <==> aborts_to(b, st, r));
        assert(aborts_to(b, st, r) <==> aborts_to(c, st, r));
    }
}

/// Two adjacent `Modify` nodes are equivalent to their merge.
pub proof fn lemma_pair_modify_equiv(
    a1: Map<int, Operation>,
    pd1: int,
    a2: Map<int, Operation>,
    pd2: int,
)
    requires
        0 <= pd1 < MAX_CELL_COUNT,
        0 <= pd2 < MAX_CELL_COUNT,
    ensures
        prog_equiv(
            seq![
                IrTokV::Modify { adds: a1, ptr_delta: pd1 },
                IrTokV::Modify { adds: a2, ptr_delta: pd2 },
            ],
            seq![
                IrTokV::Modify {
                    adds: merge_maps(a1, shift_map(a2, pd1, MAX_CELL_COUNT as int)),
                    ptr_delta: (pd1 + pd2) % (MAX_CELL_COUNT as int),
                },
            ],
        ),
{
    let t1 = IrTokV::Modify { adds: a1, ptr_delta: pd1 };
    let t2 = IrTokV::Modify { adds: a2, ptr_delta: pd2 };
    let tm = IrTokV::Modify {
        adds: merge_maps(a1, shift_map(a2, pd1, MAX_CELL_COUNT as int)),
        ptr_delta: (pd1 + pd2) % (MAX_CELL_COUNT as int),
    };
    let p = seq![t1, t2];
    let q = seq![tm];
    assert forall|st: StateV, r: StateV| wf_state(st) implies (#[trigger] runs_to(p, st, r) <==> #[trigger] runs_to(
        q,
        st,
        r,
    )) by {
        let st1 = apply_modify(st, a1, pd1);
        let st2 = apply_modify(st1, a2, pd2);
        lemma_merge_modify(st, a1, pd1, a2, pd2);
        lemma_single_modify(
            merge_maps(a1, shift_map(a2, pd1, MAX_CELL_COUNT as int)),
            (pd1 + pd2) % (MAX_CELL_COUNT as int),
            st,
            r,
        );
        assert(p =~= seq![t1] + seq![t2]);
        lemma_runs_to_app(seq![t1], seq![t2], st, r);
        if runs_to(p, st, r) {
            let m = choose|m: StateV| #[trigger] runs_to(seq![t1], st, m) && runs_to(
                seq![t2],
                m,
                r,
            );
            lemma_single_modify(a1, pd1, st, m);
            lemma_single_modify(a2, pd2, m, r);
            assert(r == st2);
        }
        if runs_to(q, st, r) {
            assert(r == st2);
            lemma_single_modify(a1, pd1, st, st1);
            lemma_single_modify(a2, pd2, st1, st2);
            assert(runs_to(seq![t1], st, st1) && runs_to(seq![t2], st1, r));
        }
    }
    // neither side reads, so neither side can abort
    assert(read_free_seq(Seq::<IrTokV>::empty()));
    assert(read_free_seq(p)) by {
        assert(read_free_tok(t1));
        assert(read_free_tok(t2));
        assert(p.subrange(1, 2) =~= seq![t2]);
        assert(seq![t2].subrange(1, 1) =~= Seq::<IrTokV>::empty());
        assert(read_free_seq(seq![t2]));
    }
    assert(read_free_seq(q)) by {
        assert(read_free_tok(tm));
        assert(q.subrange(1, 1) =~= Seq::<IrTokV>::empty());
    }
    assert forall|st: StateV, r: StateV| wf_state(st) implies (#[trigger] aborts_to(p, st, r)
        <==> #[trigger] aborts_to(q, st, r)) by {
        lemma_never_aborts(p, st, r);
        lemma_never_aborts(q, st, r);
    }
}

/// A `Modify` with no cell mutations and no net pointer move is
/// equivalent to nothing at all.
pub proof fn lemma_noop_modify_equiv(adds: Map<int, Operation>)
    requires
        adds.dom() =~= Set::<int>::empty(),
    ensures
        prog_equiv(seq![IrTokV::Modify { adds, ptr_delta: 0 }], Seq::<IrTokV>::empty()),
{
    let p = seq![IrTokV::Modify { adds, ptr_delta: 0 }];
    let q = Seq::<IrTokV>::empty();
    assert forall|st: StateV, r: StateV| wf_state(st) implies (#[trigger] runs_to(p, st, r) <==> #[trigger] runs_to(
        q,
        st,
        r,
    )) by {
        lemma_single_modify(adds, 0, st, r);
        let st1 = apply_modify(st, adds, 0);
        vstd::arithmetic::div_mod::lemma_small_mod(st.ptr as nat, MAX_CELL_COUNT as nat);
        assert(st1.tape =~= st.tape);
        assert(st1 == st);
        assert(interp(q, st, 0) == Outcome::Done(st));
        if runs_to(q, st, r) {
            let fuel = choose|fuel: nat| interp(q, st, fuel) == Outcome::Done(r);
        }
    }
    // neither side reads, so neither side can abort
    assert(read_free_seq(q));
    assert(read_free_seq(p)) by {
        assert(read_free_tok(p[0]));
        assert(p.subrange(1, 1) =~= Seq::<IrTokV>::empty());
    }
    assert forall|st: StateV, r: StateV| wf_state(st) implies (#[trigger] aborts_to(p, st, r)
        <==> #[trigger] aborts_to(q, st, r)) by {
        lemma_never_aborts(p, st, r);
        lemma_never_aborts(q, st, r);
    }
}

/// Rotating a map commutes with inserting: inserting at `o` and rotating
/// by `sh` is rotating and inserting at the rotated offset.
pub proof fn lemma_shift_insert(m: Map<int, Operation>, o: int, op: Operation, sh: int, len: int)
    requires
        0 <= o < len,
        0 <= sh < len,
    ensures
        shift_map(m.insert(o, op), sh, len) =~= shift_map(m, sh, len).insert((o + sh) % len, op),
{
    let o2 = (o + sh) % len;
    vstd::arithmetic::div_mod::lemma_mod_bound(o + sh, len);
    assert((o2 - sh) % len == o) by {
        vstd::arithmetic::div_mod::lemma_small_mod(sh as nat, len as nat);
        vstd::arithmetic::div_mod::lemma_sub_mod_noop(o + sh, sh, len);
        vstd::arithmetic::div_mod::lemma_mod_twice(o + sh, len);
        vstd::arithmetic::div_mod::lemma_small_mod(o as nat, len as nat);
    }
    let lhs = shift_map(m.insert(o, op), sh, len);
    let rhs = shift_map(m, sh, len).insert(o2, op);
    assert forall|x: int| (#[trigger] lhs.dom().contains(x)) <==> (#[trigger] rhs.dom().contains(
        x,
    )) by {
        if x != o2 && 0 <= x < len {
            assert((x - sh) % len != o) by {
                if (x - sh) % len == o {
                    vstd::arithmetic::div_mod::lemma_small_mod(sh as nat, len as nat);
                    vstd::arithmetic::div_mod::lemma_add_mod_noop(x - sh, sh, len);
                    vstd::arithmetic::div_mod::lemma_small_mod(x as nat, len as nat);
                    assert(o2 == x);
                }
            }
        }
    }
    assert forall|x: int| lhs.dom().contains(x) && rhs.dom().contains(x) implies lhs[x] == rhs[x] by {
        if x != o2 {
            assert((x - sh) % len != o) by {
                if (x - sh) % len == o {
                    vstd::arithmetic::div_mod::lemma_small_mod(sh as nat, len as nat);
                    vstd::arithmetic::div_mod::lemma_add_mod_noop(x - sh, sh, len);
                    vstd::arithmetic::div_mod::lemma_small_mod(x as nat, len as nat);
                    assert(o2 == x);
                }
            }
        }
    }
    assert(lhs =~= rhs);
}

/// The body of a zeroing loop: add `d` to the entry cell, move nowhere.
pub open spec fn zeroing_body(d: u8) -> Seq<IrTokV> {
    seq![IrTokV::Modify { adds: map![0int => Operation::Add(d)], ptr_delta: 0 }]
}

/// The replacement a zeroing loop reduces to: store 0 in the entry cell.
pub open spec fn set_zero_tok() -> IrTokV {
    IrTokV::Modify { adds: map![0int => Operation::SetAbs(0u8)], ptr_delta: 0 }
}

/// On the ring, the residue of `j - ptr` vanishes exactly at `j == ptr`.
proof fn lemma_mod0_offset(j: int, ptr: int, len: int)
    requires
        0 <= j < len,
        0 <= ptr < len,
    ensures
        ((j - ptr) % len == 0) <==> (j == ptr),
{
    if j >= ptr {
        vstd::arithmetic::div_mod::lemma_small_mod((j - ptr) as nat, len as nat);
    } else {
        vstd::arithmetic::div_mod::lemma_mod_add_multiples_vanish(j - ptr, len);
        vstd::arithmetic::div_mod::lemma_small_mod((j - ptr + len) as nat, len as nat);
    }
}

/// A `Modify` that touches only the entry cell updates that cell and
/// leaves the pointer where it was.
pub proof fn lemma_apply_modify_single(st: StateV, op: Operation)
    requires
        wf_state(st),
    ensures
        apply_modify(st, map![0int => op], 0) == (StateV {
            tape: st.tape.update(st.ptr, apply_op(st.tape[st.ptr], op)),
            ..st
        }),
{
    let len = MAX_CELL_COUNT as int;
    let m = map![0int => op];
    let r = apply_modify(st, m, 0);
    vstd::arithmetic::div_mod::lemma_small_mod(st.ptr as nat, len as nat);
    assert(r.ptr == st.ptr);
    assert forall|j: int| 0 <= j < len implies r.tape[j] == st.tape.update(
        st.ptr,
        apply_op(st.tape[st.ptr], op),
    )[j] by {
        lemma_mod0_offset(j, st.ptr, len);
        vstd::arithmetic::div_mod::lemma_mod_bound(j - st.ptr, len);
    }
    assert(r.tape =~= st.tape.update(st.ptr, apply_op(st.tape[st.ptr], op)));
}

/// Newton-Raphson expression for the inverse of an odd residue mod 256.
pub open spec fn inv256(d: u8) -> int {
    ((((d as int) * ((65538 - (d as int) * (d as int)) % 256)) % 256) * ((65538 - (d as int) * (((d
        as int) * ((65538 - (d as int) * (d as int)) % 256)) % 256)) % 256)) % 256
}

/// Every odd residue is invertible modulo 256.
pub proof fn lemma_odd_inverse(d: u8)
    requires
        d % 2 == 1,
    ensures
        ((d as int) * inv256(d)) % 256 == 1,
{
    assert(d & 1 == 1) by (bit_vector)
        requires
            d % 2 == 1,
    ;
    assert(((d as int) * (((((d as int) * ((65538 - (d as int) * (d as int)) % 256)) % 256) * ((
    65538 - (d as int) * (((d as int) * ((65538 - (d as int) * (d as int)) % 256)) % 256)) % 256))
        % 256)) % 256 == 1) by (bit_vector)
        requires
            d & 1 == 1,
    ;
}

/// After `n` additions of `d`, the cell that started at `v` holds zero.
pub open spec fn reaches_zero(v: u8, d: u8, n: nat) -> bool {
    ((v as int) + (n as int) * (d as int)) % 256 == 0
}

/// Repeatedly adding an odd delta reaches zero from every start value.
pub proof fn lemma_zero_reach(v: u8, d: u8)
    requires
        d % 2 == 1,
    ensures
        exists|n: nat| reaches_zero(v, d, n),
{
    lemma_odd_inverse(d);
    let x = inv256(d);
    vstd::arithmetic::div_mod::lemma_mod_bound(
        (((d as int) * ((65538 - (d as int) * (d as int)) % 256)) % 256) * ((65538 - (d as int) * (
        ((d as int) * ((65538 - (d as int) * (d as int)) % 256)) % 256)) % 256),
        256,
    );
    assert(0 <= x < 256);
    let n0 = ((256 - (v as int)) * x) % 256;
    vstd::arithmetic::div_mod::lemma_mod_bound((256 - (v as int)) * x, 256);
    assert(0 <= n0 < 256);
    // n0 * d is congruent to 256 - v modulo 256
    calc! {
        (==)
        (n0 * (d as int)) % 256; {
            vstd::arithmetic::div_mod::lemma_mul_mod_noop_left(
                (256 - (v as int)) * x,
                d as int,
                256,
            );
        }
        ((256 - (v as int)) * x * (d as int)) % 256; {
            vstd::arithmetic::mul::lemma_mul_is_associative(256 - (v as int), x, d as int);
        }
        ((256 - (v as int)) * (x * (d as int))) % 256; {
            vstd::arithmetic::div_mod::lemma_mul_mod_noop_right(
                256 - (v as int),
                x * (d as int),
                256,
            );
            vstd::arithmetic::mul::lemma_mul_is_commutative(x, d as int);
        }
        ((256 - (v as int)) * (((d as int) * x) % 256)) % 256; {}
        (256 - (v as int)) % 256;
    }
    vstd::arithmetic::div_mod::lemma_add_mod_noop_right(v as int, n0 * (d as int), 256);
    if v == 0 {
        vstd::arithmetic::div_mod::lemma_mod_self_0(256);
        vstd::arithmetic::div_mod::lemma_small_mod(0nat, 256nat);
        assert(((v as int) + (n0 as int) * (d as int)) % 256 == 0);
    } else {
        vstd::arithmetic::div_mod::lemma_small_mod((256 - (v as int)) as nat, 256nat);
        vstd::arithmetic::div_mod::lemma_mod_self_0(256);
        assert(((v as int) + (n0 as int) * (d as int)) % 256 == 0);
    }
    assert(reaches_zero(v, d, n0 as nat));
}

/// The final state of a zeroing loop: the entry cell cleared, everything
/// else untouched.
pub open spec fn cleared(st: StateV) -> StateV {
    StateV { tape: st.tape.update(st.ptr, 0u8), ..st }
}

/// A loop whose body adds an odd delta to the entry cell terminates, and
/// clears that cell.
pub proof fn lemma_zeroing_loop_runs(st: StateV, d: u8, n: nat)
    requires
        wf_state(st),
        ((st.tape[st.ptr] as int) + (n as int) * (d as int)) % 256 == 0,
    ensures
        runs_to(seq![IrTokV::Loop(zeroing_body(d))], st, cleared(st)),
    decreases n,
{
    let p = seq![IrTokV::Loop(zeroing_body(d))];
    let v = st.tape[st.ptr];
    lemma_loop_iter(zeroing_body(d), st, cleared(st));
    if v == 0 {
        assert(st.tape.update(st.ptr, 0u8) =~= st.tape);
        assert(cleared(st) == st);
    } else {
        vstd::arithmetic::div_mod::lemma_small_mod(v as nat, 256nat);
        assert(n != 0) by {
            if n == 0 {
                vstd::arithmetic::mul::lemma_mul_basics(d as int);
                assert((n as int) * (d as int) == 0);
                assert(((v as int) + (n as int) * (d as int)) % 256 == (v as int) % 256);
            }
        }
        let st2 = apply_modify(st, map![0int => Operation::Add(d)], 0);
        lemma_apply_modify_single(st, Operation::Add(d));
        lemma_single_modify(map![0int => Operation::Add(d)], 0, st, st2);
        assert(runs_to(zeroing_body(d), st, st2));
        // the new cell value still reaches zero, one step sooner
        let v2 = st2.tape[st2.ptr];
        assert(v2 == ((v + d) % 256) as u8);
        assert(((v2 as int) + ((n - 1) as int) * (d as int)) % 256 == 0) by {
            vstd::arithmetic::div_mod::lemma_add_mod_noop(
                (v as int) + (d as int),
                ((n - 1) as int) * (d as int),
                256,
            );
            vstd::arithmetic::div_mod::lemma_add_mod_noop_right(
                ((v as int) + (d as int)) % 256,
                ((n - 1) as int) * (d as int),
                256,
            );
            vstd::arithmetic::mul::lemma_mul_is_distributive_sub_other_way(
                d as int,
                n as int,
                1,
            );
            assert((v as int) + (d as int) + ((n - 1) as int) * (d as int) == (v as int) + (n
                as int) * (d as int));
        }
        lemma_zeroing_loop_runs(st2, d, (n - 1) as nat);
        assert(cleared(st2) == cleared(st)) by {
            assert(st2.tape.update(st2.ptr, 0u8) =~= st.tape.update(st.ptr, 0u8));
        }
        assert(runs_to(zeroing_body(d), st, st2) && runs_to(p, st2, cleared(st)));
    }
}

/// Zeroing-loop correctness: for every odd delta, the loop that adds the
/// delta to the entry cell terminates from every start state, and both
/// it and the store it reduces to leave the entry cell at zero with
/// everything else untouched.
pub proof fn lemma_zeroing_loop_terminates(st: StateV, d: u8)
    requires
        wf_state(st),
        d % 2 == 1,
    ensures
        runs_to(seq![IrTokV::Loop(zeroing_body(d))], st, cleared(st)),
        runs_to(seq![set_zero_tok()], st, cleared(st)),
        cleared(st).tape[st.ptr] == 0,
{
    lemma_zero_reach(st.tape[st.ptr], d);
    let n = choose|n: nat| reaches_zero(st.tape[st.ptr], d, n);
    lemma_zeroing_loop_runs(st, d, n);
    lemma_apply_modify_single(st, Operation::SetAbs(0u8));
    lemma_single_modify(map![0int => Operation::SetAbs(0u8)], 0, st, cleared(st));
    assert(apply_modify(st, map![0int => Operation::SetAbs(0u8)], 0) == cleared(st));
}

/// Zeroing-loop reduction is sound: for an odd delta the loop and the
/// store-zero node finish in exactly the same states.
pub proof fn lemma_zeroing_equiv(d: u8)
    requires
        d % 2 == 1,
    ensures
        prog_equiv(seq![IrTokV::Loop(zeroing_body(d))], seq![set_zero_tok()]),
{
    let p = seq![IrTokV::Loop(zeroing_body(d))];
    let q = seq![set_zero_tok()];
    assert forall|st: StateV, r: StateV| wf_state(st) implies (#[trigger] runs_to(p, st, r) <==> #[trigger] runs_to(
        q,
        st,
        r,
    )) by {
        lemma_apply_modify_single(st, Operation::SetAbs(0u8));
        lemma_single_modify(map![0int => Operation::SetAbs(0u8)], 0, st, r);
        assert(apply_modify(st, map![0int => Operation::SetAbs(0u8)], 0) == cleared(st));
        lemma_zero_reach(st.tape[st.ptr], d);
        let n = choose|n: nat| reaches_zero(st.tape[st.ptr], d, n);
        lemma_zeroing_loop_runs(st, d, n);
        if runs_to(p, st, r) {
            // the loop's result is unique
            let f1 = choose|f1: nat| interp(p, st, f1) == Outcome::Done(r);
            let f2 = choose|f2: nat| interp(p, st, f2) == Outcome::Done(cleared(st));
            let fbig = if f1 > f2 {
                f1
            } else {
                f2
            };
            lemma_interp_mono(p, st, f1, fbig);
            lemma_interp_mono(p, st, f2, fbig);
            assert(r == cleared(st));
        }
    }
    // neither the loop nor the store reads, so neither can abort
    assert(read_free_seq(Seq::<IrTokV>::empty()));
    assert(read_free_seq(zeroing_body(d))) by {
        assert(read_free_tok(zeroing_body(d)[0]));
        assert(zeroing_body(d).subrange(1, 1) =~= Seq::<IrTokV>::empty());
    }
    assert(read_free_seq(p)) by {
        assert(read_free_tok(p[0]));
        assert(p.subrange(1, 1) =~= Seq::<IrTokV>::empty());
    }
    assert(read_free_seq(q)) by {
        assert(read_free_tok(q[0]));
        assert(q.subrange(1, 1) =~= Seq::<IrTokV>::empty());
    }
    assert forall|st: StateV, r: StateV| wf_state(st) implies (#[trigger] aborts_to(p, st, r)
        <==> #[trigger] aborts_to(q, st, r)) by {
        lemma_never_aborts(p, st, r);
        lemma_never_aborts(q, st, r);
    }
}

} // verus!
