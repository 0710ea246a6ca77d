//! The fused intermediate representation: runs of pointer and cell
//! mutations folded into single `Modify` nodes, with loop bodies nested.

use vstd::prelude::*;

use crate::bf::bf_view_seq;
use crate::bf::bf_view_tok;
use crate::bf::lemma_bf_view_seq_index;
use crate::bf::lemma_raw_height_le;
use crate::bf::parse_bytes;
use crate::bf::parse_spec;
use crate::bf::raw_height_seq;
use crate::bf::BfScope;
use crate::bf::BfTok;
use crate::bf::RawTok;

verus! {

/// The number of cells on the memory tape. The pointer and all cell
/// offsets live on a ring of this length.
pub const MAX_CELL_COUNT: usize = 1048576;

/// A single mutation of one cell: add a modulo-256 delta, or store an
/// absolute value.
#[derive(Clone, Copy, PartialEq, Eq, Debug)]
pub enum Operation {
    /// Add the delta to the cell, wrapping modulo 256. A decrement is the
    /// delta 255.
    Add(u8),
    /// Store the value, discarding whatever the cell held.
    SetAbs(u8),
}

/// Spec-level mirror of a fused instruction. Cell mutations are a map from
/// entry-relative offsets (canonical ring residues) to operations.
pub enum IrTokV {
    Modify { adds: Map<int, Operation>, ptr_delta: int },
    Write,
    Read,
    Loop(Seq<IrTokV>),
}

/// A fused instruction.
#[derive(PartialEq, Debug)]
pub enum BfIrTok {
    /// A set of cell mutations, keyed by offset relative to the pointer on
    /// entry to this node, followed by a net pointer displacement. Offsets
    /// and the displacement are canonical residues modulo `MAX_CELL_COUNT`,
    /// and the offsets are pairwise distinct.
    Modify { adds: Vec<(usize, Operation)>, ptr_delta: usize },
    Write,
    Read,
    Loop(BfIrScope),
}

/// An ordered list of fused instructions; a loop body is itself a scope.
#[derive(PartialEq, Debug)]
pub struct BfIrScope {
    pub toks: Vec<BfIrTok>,
}

/// The offset map denoted by a list of (offset, operation) pairs; on a
/// duplicated offset the later entry wins.
pub open spec fn map_of_adds(adds: Seq<(usize, Operation)>) -> Map<int, Operation>
    decreases adds.len(),
{
    if adds.len() == 0 {
        Map::empty()
    } else {
        map_of_adds(adds.subrange(0, adds.len() - 1)).insert(
            adds[adds.len() - 1].0 as int,
            adds[adds.len() - 1].1,
        )
    }
}

pub open spec fn ir_view_tok(t: BfIrTok) -> IrTokV
    decreases t,
{
    match t {
        BfIrTok::Modify { adds, ptr_delta } => IrTokV::Modify {
            adds: map_of_adds(adds@),
            ptr_delta: ptr_delta as int,
        },
        BfIrTok::Write => IrTokV::Write,
        BfIrTok::Read => IrTokV::Read,
        BfIrTok::Loop(sc) => IrTokV::Loop(ir_view_seq(sc.toks@)),
    }
}

pub open spec fn ir_view_seq(s: Seq<BfIrTok>) -> Seq<IrTokV>
    decreases s,
{
    if s.len() == 0 {
        Seq::empty()
    } else {
        ir_view_seq(s.subrange(0, s.len() - 1)).push(ir_view_tok(s[s.len() - 1]))
    }
}

pub proof fn lemma_ir_view_seq_index(s: Seq<BfIrTok>)
    ensures
        ir_view_seq(s).len() == s.len(),
        forall|i: int| 0 <= i < s.len() ==> ir_view_seq(s)[i] == ir_view_tok(s[i]),
    decreases s.len(),
{
    if s.len() > 0 {
        lemma_ir_view_seq_index(s.subrange(0, s.len() - 1));
    }
}

impl View for BfIrTok {
    type V = IrTokV;

    open spec fn view(&self) -> IrTokV {
        ir_view_tok(*self)
    }
}

impl View for BfIrScope {
    type V = Seq<IrTokV>;

    open spec fn view(&self) -> Seq<IrTokV> {
        ir_view_seq(self.toks@)
    }
}

/// The offsets in the list are pairwise distinct.
pub open spec fn adds_unique(adds: Seq<(usize, Operation)>) -> bool {
    forall|i: int, j: int|
        0 <= i < j < adds.len() ==> (#[trigger] adds[i]).0 != (#[trigger] adds[j]).0
}

/// Structural invariant of a fused instruction: offsets are pairwise
/// distinct canonical residues, the displacement is a canonical residue,
/// and a node that neither mutates a cell nor moves the pointer is never
/// materialized.
pub open spec fn ir_wf_tok(t: BfIrTok) -> bool
    decreases t,
{
    match t {
        BfIrTok::Modify { adds, ptr_delta } => {
            &&& adds_unique(adds@)
            &&& forall|i: int| 0 <= i < adds@.len() ==> (#[trigger] adds@[i]).0 < MAX_CELL_COUNT
            &&& ptr_delta < MAX_CELL_COUNT
            &&& (adds@.len() > 0 || ptr_delta != 0)
        },
        BfIrTok::Write => true,
        BfIrTok::Read => true,
        BfIrTok::Loop(sc) => ir_wf_seq(sc.toks@),
    }
}

pub open spec fn ir_wf_seq(s: Seq<BfIrTok>) -> bool
    decreases s, s.len(),
{
    if s.len() == 0 {
        true
    } else {
        ir_wf_tok(s[0]) && ir_wf_seq(s.subrange(1, s.len() as int))
    }
}

pub proof fn lemma_ir_wf_seq_index(s: Seq<BfIrTok>)
    ensures
        ir_wf_seq(s) <==> (forall|i: int| 0 <= i < s.len() ==> ir_wf_tok(#[trigger] s[i])),
    decreases s.len(),
{
    if s.len() > 0 {
        lemma_ir_wf_seq_index(s.subrange(1, s.len() as int));
        assert forall|i: int| 0 <= i < s.len() && ir_wf_seq(s) implies ir_wf_tok(#[trigger] s[i]) by {
            if i > 0 {
                assert(s.subrange(1, s.len() as int)[i - 1] == s[i]);
            }
        }
        if forall|i: int| 0 <= i < s.len() ==> ir_wf_tok(#[trigger] s[i]) {
            assert forall|i: int| 0 <= i < s.subrange(1, s.len() as int).len() implies ir_wf_tok(
                #[trigger] s.subrange(1, s.len() as int)[i],
            ) by {
                assert(s.subrange(1, s.len() as int)[i] == s[i + 1]);
            }
        }
    }
}

/// The composition algebra for two operations on one offset, applied in
/// sequence: adds accumulate modulo 256, a store wins over a preceding
/// add, an add after a store folds into the stored value.
pub open spec fn compose_op(op1: Operation, op2: Operation) -> Operation {
    match op2 {
        Operation::Add(d2) => match op1 {
            Operation::Add(d1) => Operation::Add(((d1 + d2) % 256) as u8),
            Operation::SetAbs(x) => Operation::SetAbs(((x + d2) % 256) as u8),
        },
        Operation::SetAbs(y) => Operation::SetAbs(y),
    }
}

/// Executable form of the composition algebra.
pub(crate) fn compose_op_exec(op1: Operation, op2: Operation) -> (r: Operation)
    ensures
        r == compose_op(op1, op2),
{
    match op2 {
        Operation::Add(d2) => match op1 {
            Operation::Add(d1) => Operation::Add((((d1 as u16) + (d2 as u16)) % 256) as u8),
            Operation::SetAbs(x) => Operation::SetAbs((((x as u16) + (d2 as u16)) % 256) as u8),
        },
        Operation::SetAbs(y) => Operation::SetAbs(y),
    }
}

/// Linear scan for an offset in an entry list.
pub(crate) fn find_key(adds: &Vec<(usize, Operation)>, key: usize) -> (r: Option<usize>)
    ensures
        match r {
            Some(i) => i < adds@.len() && adds@[i as int].0 == key,
            None => forall|i: int| 0 <= i < adds@.len() ==> (#[trigger] adds@[i]).0 != key,
        },
{
    let mut i: usize = 0;
    while i < adds.len()
        invariant
            i <= adds@.len(),
            forall|j: int| 0 <= j < i ==> (#[trigger] adds@[j]).0 != key,
        decreases adds@.len() - i,
    {
        if adds[i].0 == key {
            return Some(i);
        }
        i = i + 1;
    }
    None
}

/// Nesting height of a fused instruction.
pub open spec fn ir_height_tok(t: IrTokV) -> nat
    decreases t,
{
    match t {
        IrTokV::Loop(body) => 1 + ir_height_seq(body),
        _ => 0,
    }
}

/// Largest nesting height of any instruction in the sequence.
pub open spec fn ir_height_seq(s: Seq<IrTokV>) -> nat
    decreases s, s.len(),
{
    if s.len() == 0 {
        0
    } else {
        let h0 = ir_height_tok(s[0]);
        let hr = ir_height_seq(s.subrange(1, s.len() as int));
        if h0 > hr {
            h0
        } else {
            hr
        }
    }
}

pub proof fn lemma_ir_height_le(s: Seq<IrTokV>, i: int)
    requires
        0 <= i < s.len(),
    ensures
        ir_height_tok(s[i]) <= ir_height_seq(s),
    decreases s.len(),
{
    if i > 0 {
        lemma_ir_height_le(s.subrange(1, s.len() as int), i - 1);
        assert(s.subrange(1, s.len() as int)[i - 1] == s[i]);
    }
}

/// Height of a concatenation is the larger of the two heights.
pub proof fn lemma_ir_height_app(a: Seq<IrTokV>, b: Seq<IrTokV>)
    ensures
        ir_height_seq(a + b) == if ir_height_seq(a) > ir_height_seq(b) {
            ir_height_seq(a)
        } else {
            ir_height_seq(b)
        },
    decreases a.len(),
{
    if a.len() == 0 {
        assert(a + b =~= b);
    } else {
        assert((a + b).subrange(1, (a + b).len() as int) =~= a.subrange(1, a.len() as int) + b);
        assert((a + b)[0] == a[0]);
        lemma_ir_height_app(a.subrange(1, a.len() as int), b);
    }
}

/// Recursive size of an instruction: a loop counts one more than the
/// total size of its body.
pub open spec fn ir_size_tok(t: IrTokV) -> nat
    decreases t,
{
    match t {
        IrTokV::Loop(body) => 1 + ir_size_seq(body),
        _ => 1,
    }
}

/// Total recursive size of a program.
pub open spec fn ir_size_seq(s: Seq<IrTokV>) -> nat
    decreases s, s.len(),
{
    if s.len() == 0 {
        0
    } else {
        ir_size_tok(s[0]) + ir_size_seq(s.subrange(1, s.len() as int))
    }
}

/// Size of a concatenation is the sum of the sizes.
pub proof fn lemma_ir_size_app(a: Seq<IrTokV>, b: Seq<IrTokV>)
    ensures
        ir_size_seq(a + b) == ir_size_seq(a) + ir_size_seq(b),
    decreases a.len(),
{
    if a.len() == 0 {
        assert(a + b =~= b);
    } else {
        assert((a + b).subrange(1, (a + b).len() as int) =~= a.subrange(1, a.len() as int) + b);
        assert((a + b)[0] == a[0]);
        lemma_ir_size_app(a.subrange(1, a.len() as int), b);
    }
}

/// Views distribute over concatenation.
pub proof fn lemma_ir_view_seq_app(a: Seq<BfIrTok>, b: Seq<BfIrTok>)
    ensures
        ir_view_seq(a + b) == ir_view_seq(a) + ir_view_seq(b),
    decreases b.len(),
{
    if b.len() == 0 {
        assert(a + b =~= a);
        assert(ir_view_seq(a) + ir_view_seq(b) =~= ir_view_seq(a));
    } else {
        let ab = a + b;
        assert(ab.subrange(0, ab.len() - 1) =~= a + b.subrange(0, b.len() - 1));
        assert(ab[ab.len() - 1] == b[b.len() - 1]);
        lemma_ir_view_seq_app(a, b.subrange(0, b.len() - 1));
        assert(ir_view_seq(a + b) =~= ir_view_seq(a) + ir_view_seq(b));
    }
}

/// Well-formedness distributes over concatenation.
pub proof fn lemma_ir_wf_seq_app(a: Seq<BfIrTok>, b: Seq<BfIrTok>)
    ensures
        ir_wf_seq(a + b) <==> (ir_wf_seq(a) && ir_wf_seq(b)),
{
    lemma_ir_wf_seq_index(a + b);
    lemma_ir_wf_seq_index(a);
    lemma_ir_wf_seq_index(b);
    if ir_wf_seq(a + b) {
        assert forall|i: int| 0 <= i < a.len() implies ir_wf_tok(#[trigger] a[i]) by {
            assert((a + b)[i] == a[i]);
        }
        assert forall|i: int| 0 <= i < b.len() implies ir_wf_tok(#[trigger] b[i]) by {
            assert((a + b)[a.len() + i] == b[i]);
        }
    }
    if ir_wf_seq(a) && ir_wf_seq(b) {
        assert forall|i: int| 0 <= i < (a + b).len() implies ir_wf_tok(#[trigger] (a + b)[i]) by {
            if i < a.len() {
                assert((a + b)[i] == a[i]);
            } else {
                assert((a + b)[i] == b[i - a.len()]);
            }
        }
    }
}

/// View of a one-instruction program.
pub proof fn lemma_ir_view_seq_singleton(t: BfIrTok)
    ensures
        ir_view_seq(seq![t]) == seq![ir_view_tok(t)],
{
    lemma_ir_view_seq_index(seq![t]);
    assert(ir_view_seq(seq![t]) =~= seq![ir_view_tok(t)]);
}

/// Well-formedness restricts to any contiguous part.
pub proof fn lemma_ir_wf_seq_subrange(s: Seq<BfIrTok>, a: int, b: int)
    requires
        ir_wf_seq(s),
        0 <= a <= b <= s.len(),
    ensures
        ir_wf_seq(s.subrange(a, b)),
{
    lemma_ir_wf_seq_index(s);
    lemma_ir_wf_seq_index(s.subrange(a, b));
    assert forall|i: int| 0 <= i < s.subrange(a, b).len() implies ir_wf_tok(
        #[trigger] s.subrange(a, b)[i],
    ) by {
        assert(s.subrange(a, b)[i] == s[a + i]);
    }
}

/// Size and height of the empty program.
pub proof fn lemma_ir_measure_seq0()
    ensures
        ir_size_seq(Seq::<IrTokV>::empty()) == 0,
        ir_height_seq(Seq::<IrTokV>::empty()) == 0,
{
}

/// Size and height of a one-instruction program.
pub proof fn lemma_ir_measure_seq1(a: IrTokV)
    ensures
        ir_size_seq(seq![a]) == ir_size_tok(a),
        ir_height_seq(seq![a]) == ir_height_tok(a),
{
    let s = seq![a];
    assert(s.subrange(1, 1) =~= Seq::<IrTokV>::empty());
    lemma_ir_measure_seq0();
    assert(s[0] == a);
}

/// Size and height of a two-instruction program.
pub proof fn lemma_ir_measure_seq2(a: IrTokV, b: IrTokV)
    ensures
        ir_size_seq(seq![a, b]) == ir_size_tok(a) + ir_size_tok(b),
        ir_height_seq(seq![a, b]) == if ir_height_tok(a) > ir_height_tok(b) {
            ir_height_tok(a)
        } else {
            ir_height_tok(b)
        },
{
    let s = seq![a, b];
    assert(s.subrange(1, 2) =~= seq![b]);
    lemma_ir_measure_seq1(b);
    assert(s[0] == a);
}

/// Membership in the denoted map is having an entry in the list.
pub proof fn lemma_map_of_adds_dom(s: Seq<(usize, Operation)>)
    ensures
        forall|k: int|
            map_of_adds(s).dom().contains(k) <==> (exists|i: int|
                0 <= i < s.len() && (#[trigger] s[i]).0 == k),
    decreases s.len(),
{
    if s.len() > 0 {
        lemma_map_of_adds_dom(s.subrange(0, s.len() - 1));
        let pre = s.subrange(0, s.len() - 1);
        assert forall|k: int| map_of_adds(s).dom().contains(k) implies (exists|i: int|
            0 <= i < s.len() && (#[trigger] s[i]).0 == k) by {
            if k == s[s.len() - 1].0 {
                assert(s[s.len() - 1].0 == k);
            } else {
                assert(map_of_adds(pre).dom().contains(k));
                let i = choose|i: int| 0 <= i < pre.len() && (#[trigger] pre[i]).0 == k;
                assert(pre[i] == s[i]);
                assert(s[i].0 == k);
            }
        }
        assert forall|k: int|
            (exists|i: int| 0 <= i < s.len() && (#[trigger] s[i]).0 == k) implies map_of_adds(
            s,
        ).dom().contains(k) by {
            let i = choose|i: int| 0 <= i < s.len() && (#[trigger] s[i]).0 == k;
            if i < s.len() - 1 {
                assert(pre[i] == s[i]);
                assert(pre[i].0 == k);
                assert(map_of_adds(pre).dom().contains(k));
            }
        }
    }
}

/// With pairwise distinct offsets, each entry is the denoted map's value.
pub proof fn lemma_map_of_adds_at(s: Seq<(usize, Operation)>, i: int)
    requires
        adds_unique(s),
        0 <= i < s.len(),
    ensures
        map_of_adds(s).dom().contains(s[i].0 as int),
        map_of_adds(s)[s[i].0 as int] == s[i].1,
    decreases s.len(),
{
    lemma_map_of_adds_dom(s);
    let pre = s.subrange(0, s.len() - 1);
    if i == s.len() - 1 {
    } else {
        assert(adds_unique(pre)) by {
            assert(forall|x: int, y: int|
                0 <= x < y < pre.len() ==> (#[trigger] pre[x]) == s[x] && (#[trigger] pre[y])
                    == s[y]);
        }
        lemma_map_of_adds_at(pre, i);
        assert(s[i] == pre[i]);
        assert(s[i].0 != s[s.len() - 1].0);
    }
}

/// Re-keying one entry to a new operation updates the denoted map at
/// that entry's offset.
pub proof fn lemma_map_of_adds_update(s: Seq<(usize, Operation)>, i: int, op: Operation)
    requires
        adds_unique(s),
        0 <= i < s.len(),
    ensures
        map_of_adds(s.update(i, (s[i].0, op))) =~= map_of_adds(s).insert(s[i].0 as int, op),
    decreases s.len(),
{
    let k = s[i].0 as int;
    let s2 = s.update(i, (s[i].0, op));
    let pre = s.subrange(0, s.len() - 1);
    if i == s.len() - 1 {
        assert(s2.subrange(0, s2.len() - 1) =~= pre);
        assert(map_of_adds(s2) =~= map_of_adds(s).insert(k, op));
    } else {
        assert(adds_unique(pre)) by {
            assert(forall|x: int, y: int|
                0 <= x < y < pre.len() ==> (#[trigger] pre[x]) == s[x] && (#[trigger] pre[y])
                    == s[y]);
        }
        lemma_map_of_adds_update(pre, i, op);
        assert(s2.subrange(0, s2.len() - 1) =~= pre.update(i, (pre[i].0, op)));
        assert(s2[s2.len() - 1] == s[s.len() - 1]);
        // the final insert commutes with the update's insert: distinct keys
        assert(s[i].0 != s[s.len() - 1].0);
        assert(map_of_adds(s2) =~= map_of_adds(s).insert(k, op));
    }
}

/// The node a flush emits: nothing at all when it neither mutates a cell
/// nor moves the pointer.
pub open spec fn fuse_flush(adds: Map<int, Operation>, pd: int) -> Seq<IrTokV> {
    if adds.dom() == Set::<int>::empty() && pd == 0 {
        Seq::empty()
    } else {
        seq![IrTokV::Modify { adds, ptr_delta: pd }]
    }
}

/// Accumulate one `Add` of `delta` at the given offset into an offset
/// map.
pub open spec fn bump(adds: Map<int, Operation>, off: int, delta: u8) -> Map<int, Operation> {
    if adds.dom().contains(off) {
        adds.insert(off, compose_op(adds[off], Operation::Add(delta)))
    } else {
        adds.insert(off, Operation::Add(delta))
    }
}

/// Fuse a raw token sequence from position `i`, with the cell mutations
/// and pointer displacement accumulated so far. A cell token folds into
/// the accumulator at the offset given by the running displacement; a
/// pointer token moves the displacement along the ring; a read, write or
/// loop flushes the accumulator and stands on its own, a loop with its
/// body fused recursively.
pub open spec fn fuse_from(s: Seq<RawTok>, i: int, adds: Map<int, Operation>, pd: int) -> Seq<
    IrTokV,
>
    decreases raw_height_seq(s), s.len() - i,
        when 0 <= i <= s.len()
        via fuse_from_dec
{
    if i == s.len() {
        fuse_flush(adds, pd)
    } else {
        match s[i] {
            RawTok::ValInc => fuse_from(s, i + 1, bump(adds, pd, 1), pd),
            RawTok::ValDec => fuse_from(s, i + 1, bump(adds, pd, 255), pd),
            RawTok::PtrInc => fuse_from(s, i + 1, adds, (pd + 1) % (MAX_CELL_COUNT as int)),
            RawTok::PtrDec => fuse_from(
                s,
                i + 1,
                adds,
                (pd + MAX_CELL_COUNT - 1) % (MAX_CELL_COUNT as int),
            ),
            RawTok::Read => fuse_flush(adds, pd) + seq![IrTokV::Read] + fuse_from(
                s,
                i + 1,
                Map::empty(),
                0,
            ),
            RawTok::Write => fuse_flush(adds, pd) + seq![IrTokV::Write] + fuse_from(
                s,
                i + 1,
                Map::empty(),
                0,
            ),
            RawTok::Loop(body) => fuse_flush(adds, pd) + seq![
                IrTokV::Loop(fuse_from(body, 0, Map::empty(), 0)),
            ] + fuse_from(s, i + 1, Map::empty(), 0),
        }
    }
}

#[via_fn]
proof fn fuse_from_dec(s: Seq<RawTok>, i: int, adds: Map<int, Operation>, pd: int) {
    if 0 <= i < s.len() {
        match s[i] {
            RawTok::Loop(body) => {
                lemma_raw_height_le(s, i);
            },
            _ => {},
        }
    }
}

/// The fused form of a raw token sequence.
pub open spec fn fuse(s: Seq<RawTok>) -> Seq<IrTokV> {
    fuse_from(s, 0, Map::empty(), 0)
}

impl Clone for BfIrTok {
    /// A clone denotes the same instruction.
    fn clone(&self) -> (r: Self)
        ensures
            r@ == self@,
            ir_wf_tok(r) == ir_wf_tok(*self),
        decreases self,
    {
        match self {
            BfIrTok::Modify { adds, ptr_delta } => {
                let mut a2: Vec<(usize, Operation)> = Vec::new();
                let mut i: usize = 0;
                while i < adds.len()
                    invariant
                        i <= adds.len(),
                        a2@ == adds@.subrange(0, i as int),
                    decreases adds.len() - i,
                {
                    a2.push(adds[i]);
                    i = i + 1;
                }
                assert(a2@ =~= adds@);
                BfIrTok::Modify { adds: a2, ptr_delta: *ptr_delta }
            },
            BfIrTok::Write => BfIrTok::Write,
            BfIrTok::Read => BfIrTok::Read,
            BfIrTok::Loop(sc) => BfIrTok::Loop(sc.clone()),
        }
    }
}

impl Clone for BfIrScope {
    /// A clone denotes the same program.
    fn clone(&self) -> (r: Self)
        ensures
            r@ == self@,
            ir_wf_seq(r.toks@) == ir_wf_seq(self.toks@),
        decreases self,
    {
        let mut t2: Vec<BfIrTok> = Vec::new();
        let mut i: usize = 0;
        while i < self.toks.len()
            invariant
                i <= self.toks.len(),
                t2@.len() == i,
                forall|j: int| 0 <= j < i ==> t2@[j]@ == self.toks@[j]@,
                forall|j: int|
                    0 <= j < i ==> ir_wf_tok(t2@[j]) == ir_wf_tok(self.toks@[j]),
            decreases self.toks.len() - i,
        {
            t2.push(self.toks[i].clone());
            i = i + 1;
        }
        let r = BfIrScope { toks: t2 };
        proof {
            lemma_ir_view_seq_index(t2@);
            lemma_ir_view_seq_index(self.toks@);
            assert(r@ =~= self@);
            lemma_ir_wf_seq_index(t2@);
            lemma_ir_wf_seq_index(self.toks@);
            if ir_wf_seq(self.toks@) {
                assert forall|j: int| 0 <= j < t2@.len() implies ir_wf_tok(#[trigger] t2@[j]) by {
                    assert(ir_wf_tok(self.toks@[j]));
                }
            }
            if ir_wf_seq(t2@) {
                assert forall|j: int|
                    0 <= j < self.toks@.len() implies ir_wf_tok(#[trigger] self.toks@[j]) by {
                    assert(ir_wf_tok(t2@[j]));
                }
            }
        }
        r
    }
}

/// Is `sub` the view of `sup` itself, or of a loop body nested anywhere
/// inside it?
pub open spec fn is_subscope(sub: Seq<IrTokV>, sup: Seq<IrTokV>) -> bool
    decreases sup, sup.len(), 1int,
{
    sub == sup || subscope_in_any(sub, sup)
}

/// Is `sub` nested inside some instruction of `sup`?
pub open spec fn subscope_in_any(sub: Seq<IrTokV>, sup: Seq<IrTokV>) -> bool
    decreases sup, sup.len(), 0int,
{
    if sup.len() == 0 {
        false
    } else {
        subscope_in_tok(sub, sup[0]) || subscope_in_any(sub, sup.subrange(1, sup.len() as int))
    }
}

/// Is `sub` nested inside this one instruction?
pub open spec fn subscope_in_tok(sub: Seq<IrTokV>, t: IrTokV) -> bool
    decreases t, 0int, 0int,
{
    match t {
        IrTokV::Loop(body) => is_subscope(sub, body),
        _ => false,
    }
}

/// Nesting inside some instruction is nesting inside an indexed one.
pub proof fn lemma_subscope_any_index(sub: Seq<IrTokV>, sup: Seq<IrTokV>)
    ensures
        subscope_in_any(sub, sup) <==> (exists|i: int|
            0 <= i < sup.len() && subscope_in_tok(sub, #[trigger] sup[i])),
    decreases sup.len(),
{
    if sup.len() > 0 {
        let rest = sup.subrange(1, sup.len() as int);
        lemma_subscope_any_index(sub, rest);
        if subscope_in_any(sub, sup) {
            if subscope_in_tok(sub, sup[0]) {
            } else {
                let i = choose|i: int| 0 <= i < rest.len() && subscope_in_tok(
                    sub,
                    #[trigger] rest[i],
                );
                assert(rest[i] == sup[i + 1]);
                assert(subscope_in_tok(sub, sup[i + 1]));
            }
        }
        if exists|i: int| 0 <= i < sup.len() && subscope_in_tok(sub, #[trigger] sup[i]) {
            let i = choose|i: int| 0 <= i < sup.len() && subscope_in_tok(sub, #[trigger] sup[i]);
            if i > 0 {
                assert(rest[i - 1] == sup[i]);
                assert(subscope_in_tok(sub, rest[i - 1]));
            }
        }
    }
}

/// A push extends the view and keeps well-formedness exactly when the
/// new instruction is well-formed.
pub proof fn lemma_ir_push(s: Seq<BfIrTok>, t: BfIrTok)
    ensures
        ir_view_seq(s.push(t)) == ir_view_seq(s).push(ir_view_tok(t)),
        ir_wf_seq(s.push(t)) <==> (ir_wf_seq(s) && ir_wf_tok(t)),
{
    assert(s.push(t).subrange(0, s.len() as int) =~= s);
    assert(s.push(t)[s.len() as int] == t);
    lemma_ir_wf_seq_index(s.push(t));
    lemma_ir_wf_seq_index(s);
    if ir_wf_seq(s.push(t)) {
        assert forall|x: int| 0 <= x < s.len() implies ir_wf_tok(#[trigger] s[x]) by {
            assert(s.push(t)[x] == s[x]);
        }
        assert(ir_wf_tok(s.push(t)[s.len() as int]));
    }
    if ir_wf_seq(s) && ir_wf_tok(t) {
        assert forall|x: int| 0 <= x < s.push(t).len() implies ir_wf_tok(
            #[trigger] s.push(t)[x],
        ) by {
            if x < s.len() {
                assert(s.push(t)[x] == s[x]);
            }
        }
    }
}

/// One step of the size sum.
proof fn lemma_ir_size_seq_step(v: Seq<IrTokV>, i: int)
    requires
        0 <= i < v.len(),
    ensures
        ir_size_seq(v.subrange(i, v.len() as int)) == ir_size_tok(v[i]) + ir_size_seq(
            v.subrange(i + 1, v.len() as int),
        ),
{
    let p = v.subrange(i, v.len() as int);
    assert(p[0] == v[i]);
    assert(p.subrange(1, p.len() as int) =~= v.subrange(i + 1, v.len() as int));
}

/// Total recursive size of a scope's instruction list, each loop one
/// more than its body.
#[verifier::loop_isolation(false)]
fn size_toks(toks: &Vec<BfIrTok>) -> (r: usize)
    requires
        ir_size_seq(ir_view_seq(toks@)) <= usize::MAX,
    ensures
        r == ir_size_seq(ir_view_seq(toks@)),
    decreases ir_height_seq(ir_view_seq(toks@)),
{
    let ghost v = ir_view_seq(toks@);
    let mut acc: usize = 0;
    let mut i: usize = 0;
    proof {
        lemma_ir_view_seq_index(toks@);
        assert(v.subrange(0, v.len() as int) =~= v);
    }
    while i < toks.len()
        invariant
            i <= toks@.len(),
            acc + ir_size_seq(v.subrange(i as int, v.len() as int)) == ir_size_seq(v),
        decreases toks@.len() - i,
    {
        proof {
            lemma_ir_size_seq_step(v, i as int);
        }
        let t = &toks[i];
        match t {
            BfIrTok::Loop(sc) => {
                proof {
                    lemma_ir_height_le(v, i as int);
                }
                let inner = size_toks(&sc.toks);
                acc = acc + 1 + inner;
            },
            _ => {
                acc = acc + 1;
            },
        }
        i = i + 1;
    }
    proof {
        assert(v.subrange(v.len() as int, v.len() as int) =~= Seq::<IrTokV>::empty());
        lemma_ir_measure_seq0();
    }
    acc
}

/// Accumulate one `Add` into an entry list, composing on an existing
/// offset.
fn bump_exec(cur_adds: &mut Vec<(usize, Operation)>, off: usize, delta: u8)
    requires
        adds_unique(old(cur_adds)@),
        forall|i: int|
            0 <= i < old(cur_adds)@.len() ==> (#[trigger] old(cur_adds)@[i]).0 < MAX_CELL_COUNT,
        off < MAX_CELL_COUNT,
    ensures
        adds_unique(final(cur_adds)@),
        forall|i: int|
            0 <= i < final(cur_adds)@.len() ==> (#[trigger] final(cur_adds)@[i]).0
                < MAX_CELL_COUNT,
        map_of_adds(final(cur_adds)@) == bump(map_of_adds(old(cur_adds)@), off as int, delta),
        final(cur_adds)@.len() > 0,
{
    let ghost acc0 = cur_adds@;
    proof {
        lemma_map_of_adds_dom(acc0);
    }
    match find_key(cur_adds, off) {
        Some(j) => {
            let prev = cur_adds[j];
            let c = compose_op_exec(prev.1, Operation::Add(delta));
            cur_adds.remove(j);
            cur_adds.insert(j, (off, c));
            proof {
                assert(cur_adds@ =~= acc0.update(j as int, (off, c)));
                lemma_map_of_adds_at(acc0, j as int);
                lemma_map_of_adds_update(acc0, j as int, c);
                assert(map_of_adds(cur_adds@) =~= bump(map_of_adds(acc0), off as int, delta));
                assert(adds_unique(cur_adds@)) by {
                    assert(forall|x: int|
                        0 <= x < cur_adds@.len() ==> (#[trigger] cur_adds@[x]).0 == acc0[x].0);
                }
            }
        },
        None => {
            cur_adds.push((off, Operation::Add(delta)));
            proof {
                assert(cur_adds@.subrange(0, cur_adds@.len() - 1) =~= acc0);
                assert(!map_of_adds(acc0).dom().contains(off as int)) by {
                    if map_of_adds(acc0).dom().contains(off as int) {
                        let x = choose|x: int|
                            0 <= x < acc0.len() && (#[trigger] acc0[x]).0 == off;
                    }
                }
                assert(map_of_adds(cur_adds@) =~= bump(map_of_adds(acc0), off as int, delta));
                assert(adds_unique(cur_adds@)) by {
                    assert(forall|x: int| 0 <= x < acc0.len() ==> cur_adds@[x] == acc0[x]);
                    assert(forall|x: int|
                        0 <= x < acc0.len() ==> (#[trigger] cur_adds@[x]).0 != off);
                }
            }
        },
    }
}

/// The instruction a flush emits, if any: an accumulator that neither
/// mutates a cell nor moves the pointer is never materialized.
fn flush_node(adds: Vec<(usize, Operation)>, pd: usize) -> (r: Option<BfIrTok>)
    requires
        adds_unique(adds@),
        forall|i: int| 0 <= i < adds@.len() ==> (#[trigger] adds@[i]).0 < MAX_CELL_COUNT,
        pd < MAX_CELL_COUNT,
    ensures
        match r {
            Some(t) => {
                &&& ir_view_tok(t) == (IrTokV::Modify {
                    adds: map_of_adds(adds@),
                    ptr_delta: pd as int,
                })
                &&& ir_wf_tok(t)
                &&& fuse_flush(map_of_adds(adds@), pd as int) == seq![ir_view_tok(t)]
            },
            None => {
                &&& fuse_flush(map_of_adds(adds@), pd as int) == Seq::<IrTokV>::empty()
                &&& adds@.len() == 0
                &&& pd == 0
            },
        },
{
    if adds.len() == 0 && pd == 0 {
        proof {
            assert(map_of_adds(adds@) =~= Map::<int, Operation>::empty());
            assert(map_of_adds(adds@).dom() =~= Set::<int>::empty());
        }
        None
    } else {
        proof {
            if adds@.len() > 0 {
                lemma_map_of_adds_dom(adds@);
                assert(map_of_adds(adds@).dom().contains(adds@[0].0 as int));
                assert(map_of_adds(adds@).dom() != Set::<int>::empty()) by {
                    assert(!Set::<int>::empty().contains(adds@[0].0 as int));
                }
            }
        }
        Some(BfIrTok::Modify { adds, ptr_delta: pd })
    }
}

/// Fuse one raw scope into the `Modify`-based form, walking the list
/// with an in-progress accumulator and recursing into loop bodies.
#[verifier::loop_isolation(false)]
#[verifier::rlimit(100)]
fn fuse_toks(toks: &Vec<BfTok>) -> (r: Vec<BfIrTok>)
    ensures
        ir_view_seq(r@) == fuse(bf_view_seq(toks@)),
        ir_wf_seq(r@),
    decreases raw_height_seq(bf_view_seq(toks@)),
{
    let ghost s = bf_view_seq(toks@);
    let mut out: Vec<BfIrTok> = Vec::new();
    let mut cur_adds: Vec<(usize, Operation)> = Vec::new();
    let mut cur_pd: usize = 0;
    let mut i: usize = 0;
    proof {
        lemma_bf_view_seq_index(toks@);
        assert(map_of_adds(cur_adds@) =~= Map::<int, Operation>::empty());
        assert(ir_view_seq(out@) =~= Seq::<IrTokV>::empty());
        assert(ir_view_seq(out@) + fuse_from(s, 0, Map::empty(), 0) =~= fuse_from(
            s,
            0,
            Map::empty(),
            0,
        ));
    }
    while i < toks.len()
        invariant
            i <= toks@.len(),
            s == bf_view_seq(toks@),
            s.len() == toks@.len(),
            adds_unique(cur_adds@),
            forall|k2: int|
                0 <= k2 < cur_adds@.len() ==> (#[trigger] cur_adds@[k2]).0 < MAX_CELL_COUNT,
            cur_pd < MAX_CELL_COUNT,
            ir_wf_seq(out@),
            fuse(s) == ir_view_seq(out@) + fuse_from(
                s,
                i as int,
                map_of_adds(cur_adds@),
                cur_pd as int,
            ),
        decreases toks@.len() - i,
    {
        let ghost m0 = map_of_adds(cur_adds@);
        let ghost pd0 = cur_pd as int;
        let ghost outv0 = ir_view_seq(out@);
        proof {
            assert(s[i as int] == bf_view_tok(toks@[i as int]));
        }
        let t = &toks[i];
        match t {
            BfTok::ValInc => {
                bump_exec(&mut cur_adds, cur_pd, 1);
            },
            BfTok::ValDec => {
                bump_exec(&mut cur_adds, cur_pd, 255);
            },
            BfTok::PtrInc => {
                cur_pd = (cur_pd + 1) % MAX_CELL_COUNT;
            },
            BfTok::PtrDec => {
                cur_pd = (cur_pd + (MAX_CELL_COUNT - 1)) % MAX_CELL_COUNT;
            },
            BfTok::Read => {
                let taken = cur_adds;
                cur_adds = Vec::new();
                let pd_taken = cur_pd;
                cur_pd = 0;
                match flush_node(taken, pd_taken) {
                    Some(node) => {
                        proof {
                            lemma_ir_push(out@, node);
                        }
                        out.push(node);
                    },
                    None => {},
                }
                proof {
                    lemma_ir_push(out@, BfIrTok::Read);
                }
                out.push(BfIrTok::Read);
                proof {
                    assert(map_of_adds(cur_adds@) =~= Map::<int, Operation>::empty());
                    assert(ir_view_seq(out@) =~= outv0 + fuse_flush(m0, pd0) + seq![
                        IrTokV::Read,
                    ]);
                    assert(ir_view_seq(out@) + fuse_from(s, i + 1, Map::empty(), 0) =~= outv0
                        + fuse_from(s, i as int, m0, pd0));
                }
            },
            BfTok::Write => {
                let taken = cur_adds;
                cur_adds = Vec::new();
                let pd_taken = cur_pd;
                cur_pd = 0;
                match flush_node(taken, pd_taken) {
                    Some(node) => {
                        proof {
                            lemma_ir_push(out@, node);
                        }
                        out.push(node);
                    },
                    None => {},
                }
                proof {
                    lemma_ir_push(out@, BfIrTok::Write);
                }
                out.push(BfIrTok::Write);
                proof {
                    assert(map_of_adds(cur_adds@) =~= Map::<int, Operation>::empty());
                    assert(ir_view_seq(out@) =~= outv0 + fuse_flush(m0, pd0) + seq![
                        IrTokV::Write,
                    ]);
                    assert(ir_view_seq(out@) + fuse_from(s, i + 1, Map::empty(), 0) =~= outv0
                        + fuse_from(s, i as int, m0, pd0));
                }
            },
            BfTok::Loop(sc) => {
                let taken = cur_adds;
                cur_adds = Vec::new();
                let pd_taken = cur_pd;
                cur_pd = 0;
                match flush_node(taken, pd_taken) {
                    Some(node) => {
                        proof {
                            lemma_ir_push(out@, node);
                        }
                        out.push(node);
                    },
                    None => {},
                }
                proof {
                    lemma_raw_height_le(s, i as int);
                }
                let inner = fuse_toks(&sc.toks);
                let lptok = BfIrTok::Loop(BfIrScope { toks: inner });
                proof {
                    lemma_ir_push(out@, lptok);
                }
                out.push(lptok);
                proof {
                    assert(map_of_adds(cur_adds@) =~= Map::<int, Operation>::empty());
                    assert(ir_view_tok(lptok) == IrTokV::Loop(
                        fuse_from(bf_view_seq(sc.toks@), 0, Map::empty(), 0),
                    ));
                    assert(ir_view_seq(out@) =~= outv0 + fuse_flush(m0, pd0) + seq![
                        ir_view_tok(lptok),
                    ]);
                    assert(ir_view_seq(out@) + fuse_from(s, i + 1, Map::empty(), 0) =~= outv0
                        + fuse_from(s, i as int, m0, pd0));
                }
            },
        }
        i = i + 1;
    }
    let taken = cur_adds;
    match flush_node(taken, cur_pd) {
        Some(node) => {
            proof {
                lemma_ir_push(out@, node);
            }
            out.push(node);
        },
        None => {},
    }
    proof {
        assert(ir_view_seq(out@) =~= fuse(s));
    }
    out
}

/// `std::io::Error`, carried through opaquely when a source cannot be
/// read.
#[verifier::external_type_specification]
#[verifier::external_body]
pub struct ExIoError(std::io::Error);

/// Relies on `std::io::Read::read_to_end`: reads the stream until its
/// end and returns the bytes read, or the stream's error. Which bytes
/// arrive depends on the stream alone, so nothing is promised of them.
#[verifier::external_body]
fn read_all<R: std::io::Read>(mut src: R) -> (r: Result<Vec<u8>, std::io::Error>) {
    let mut buf = Vec::new();
    match src.read_to_end(&mut buf) {
        Ok(_) => Ok(buf),
        Err(e) => Err(e),
    }
}

impl BfIrScope {
    /// Read a byte source to its end, then parse and fuse whatever bytes
    /// it yielded; only reading can fail.
    pub fn parse<R: std::io::Read>(b: R) -> (r: Result<Self, std::io::Error>)
        ensures
            r matches Ok(sc) ==> exists|bs: Seq<u8>|
                sc@ == fuse(#[trigger] parse_spec(bs)) && ir_wf_seq(sc.toks@),
    {
        match read_all(b) {
            Ok(bytes) => {
                let sc = Self::parse_sl(bytes.as_slice());
                proof {
                    assert(sc@ == fuse(parse_spec(bytes@)) && ir_wf_seq(sc.toks@));
                }
                Ok(sc)
            },
            Err(e) => Err(e),
        }
    }

    /// Fuse a raw token tree into this representation.
    pub fn from_bf(bf: BfScope) -> (r: Self)
        ensures
            r@ == fuse(bf@),
            ir_wf_seq(r.toks@),
    {
        BfIrScope { toks: fuse_toks(&bf.toks) }
    }

    /// Parse a byte slice and fuse the result.
    pub fn parse_sl(b: &[u8]) -> (r: Self)
        ensures
            r@ == fuse(parse_spec(b@)),
            ir_wf_seq(r.toks@),
    {
        Self::from_bf(parse_bytes(b))
    }

    /// The instructions of this scope, for read-only traversal by any
    /// consumer.
    pub fn toks(&self) -> (r: &Vec<BfIrTok>)
        ensures
            r@ == self.toks@,
            ir_view_seq(r@) == self@,
    {
        &self.toks
    }

    /// The number of instructions of this scope alone, loop bodies
    /// uncounted.
    pub fn len_flat(&self) -> (r: usize)
        ensures
            r == self.toks@.len(),
            r == self@.len(),
    {
        proof {
            lemma_ir_view_seq_index(self.toks@);
        }
        self.toks.len()
    }

    /// The recursive total number of instructions of this scope: a loop
    /// counts one more than the total for its body.
    pub fn len(&self) -> (r: usize)
        requires
            ir_size_seq(self@) <= usize::MAX,
        ensures
            r == ir_size_seq(self@),
    {
        size_toks(&self.toks)
    }

    /// The subscope of `self` (including `self`) with the largest flat
    /// instruction count.
    #[verifier::loop_isolation(false)]
    pub fn largest_subscope(&self) -> (r: BfIrScope)
        ensures
            is_subscope(r@, self@),
            forall|t: Seq<IrTokV>| #[trigger] is_subscope(t, self@) ==> t.len() <= r@.len(),
        decreases ir_height_seq(self@),
    {
        let ghost v = self@;
        let mut largest = self.clone();
        let mut i: usize = 0;
        proof {
            lemma_ir_view_seq_index(self.toks@);
        }
        while i < self.toks.len()
            invariant
                i <= self.toks@.len(),
                is_subscope(largest@, v),
                v.len() <= largest@.len(),
                forall|j: int, t: Seq<IrTokV>|
                    0 <= j < i && #[trigger] subscope_in_tok(t, v[j]) ==> t.len()
                        <= largest@.len(),
            decreases self.toks@.len() - i,
        {
            let t = &self.toks[i];
            match t {
                BfIrTok::Loop(sc) => {
                    proof {
                        lemma_ir_height_le(v, i as int);
                        assert(v[i as int] == IrTokV::Loop(sc@));
                    }
                    let ghost lbefore = largest@;
                    let cand = sc.largest_subscope();
                    proof {
                        lemma_subscope_any_index(cand@, v);
                        assert(subscope_in_tok(cand@, v[i as int]));
                    }
                    if cand.len_flat() > largest.len_flat() {
                        largest = cand;
                    }
                    proof {
                        assert(lbefore.len() <= largest@.len());
                        assert forall|j: int, t2: Seq<IrTokV>|
                            0 <= j < i + 1 && #[trigger] subscope_in_tok(t2, v[j]) implies t2.len()
                            <= largest@.len() by {
                            if j == i as int {
                                assert(is_subscope(t2, sc@));
                            } else {
                                assert(t2.len() <= lbefore.len());
                            }
                        }
                    }
                },
                _ => {
                    proof {
                        assert forall|j: int, t2: Seq<IrTokV>|
                            0 <= j < i + 1 && #[trigger] subscope_in_tok(t2, v[j]) implies t2.len()
                            <= largest@.len() by {
                            if j == i as int {
                                assert(!subscope_in_tok(t2, v[j]));
                            }
                        }
                    }
                },
            }
            i = i + 1;
        }
        proof {
            assert forall|t: Seq<IrTokV>| #[trigger] is_subscope(t, v) implies t.len()
                <= largest@.len() by {
                if t != v {
                    lemma_subscope_any_index(t, v);
                    let j = choose|j: int| 0 <= j < v.len() && subscope_in_tok(
                        t,
                        #[trigger] v[j],
                    );
                    assert(subscope_in_tok(t, v[j]));
                }
            }
        }
        largest
    }

    /// Rebuild this scope through an arbitrary transformation of its
    /// instruction list.
    pub fn modify<F: FnOnce(Vec<BfIrTok>) -> Vec<BfIrTok>>(self, f: F) -> (r: Self)
        requires
            call_requires(f, (self.toks,)),
        ensures
            call_ensures(f, (self.toks,), r.toks),
    {
        BfIrScope { toks: f(self.toks) }
    }
}

} // verus!
