//! Raw token trees: one token per significant source character, with loop
//! bodies nested as sub-scopes, and the tolerant byte parser that builds them.

use vstd::prelude::*;

verus! {

/// Spec-level mirror of a raw token; loop bodies are sequences.
pub enum RawTok {
    Read,
    Write,
    ValInc,
    ValDec,
    PtrInc,
    PtrDec,
    Loop(Seq<RawTok>),
}

/// A raw token: one significant source character, or a nested loop.
pub enum BfTok {
    Read,
    Write,
    ValInc,
    ValDec,
    PtrInc,
    PtrDec,
    Loop(BfScope),
}

/// A list of raw tokens; a loop body is itself a `BfScope`.
pub struct BfScope {
    pub toks: Vec<BfTok>,
}

pub open spec fn bf_view_tok(t: BfTok) -> RawTok
    decreases t,
{
    match t {
        BfTok::Read => RawTok::Read,
        BfTok::Write => RawTok::Write,
        BfTok::ValInc => RawTok::ValInc,
        BfTok::ValDec => RawTok::ValDec,
        BfTok::PtrInc => RawTok::PtrInc,
        BfTok::PtrDec => RawTok::PtrDec,
        BfTok::Loop(sc) => RawTok::Loop(bf_view_seq(sc.toks@)),
    }
}

pub open spec fn bf_view_seq(s: Seq<BfTok>) -> Seq<RawTok>
    decreases s,
{
    if s.len() == 0 {
        Seq::empty()
    } else {
        bf_view_seq(s.subrange(0, s.len() - 1)).push(bf_view_tok(s[s.len() - 1]))
    }
}

pub proof fn lemma_bf_view_seq_index(s: Seq<BfTok>)
    ensures
        bf_view_seq(s).len() == s.len(),
        forall|i: int| 0 <= i < s.len() ==> bf_view_seq(s)[i] == bf_view_tok(s[i]),
    decreases s.len(),
{
    if s.len() > 0 {
        lemma_bf_view_seq_index(s.subrange(0, s.len() - 1));
    }
}

impl View for BfTok {
    type V = RawTok;

    open spec fn view(&self) -> RawTok {
        bf_view_tok(*self)
    }
}

impl View for BfScope {
    type V = Seq<RawTok>;

    open spec fn view(&self) -> Seq<RawTok> {
        bf_view_seq(self.toks@)
    }
}

/// Nesting height of a raw token: zero for a leaf, one more than the
/// height of the body for a loop.
pub open spec fn raw_height_tok(t: RawTok) -> nat
    decreases t,
{
    match t {
        RawTok::Loop(body) => 1 + raw_height_seq(body),
        _ => 0,
    }
}

/// Largest nesting height of any token in the sequence.
pub open spec fn raw_height_seq(s: Seq<RawTok>) -> nat
    decreases s, s.len(),
{
    if s.len() == 0 {
        0
    } else {
        let h0 = raw_height_tok(s[0]);
        let hr = raw_height_seq(s.subrange(1, s.len() as int));
        if h0 > hr {
            h0
        } else {
            hr
        }
    }
}

pub proof fn lemma_raw_height_le(s: Seq<RawTok>, i: int)
    requires
        0 <= i < s.len(),
    ensures
        raw_height_tok(s[i]) <= raw_height_seq(s),
    decreases s.len(),
{
    if i > 0 {
        lemma_raw_height_le(s.subrange(1, s.len() as int), i - 1);
        assert(s.subrange(1, s.len() as int)[i - 1] == s[i]);
    }
}

/// The byte `+`: increment the current cell.
pub const TOK_INC: u8 = 43;

/// The byte `-`: decrement the current cell.
pub const TOK_DEC: u8 = 45;

/// The byte `>`: move the pointer right.
pub const TOK_RIGHT: u8 = 62;

/// The byte `<`: move the pointer left.
pub const TOK_LEFT: u8 = 60;

/// The byte `.`: write the current cell.
pub const TOK_WRITE: u8 = 46;

/// The byte `,`: read into the current cell.
pub const TOK_READ: u8 = 44;

/// The byte `[`: open a loop.
pub const TOK_OPEN: u8 = 91;

/// The byte `]`: close a loop.
pub const TOK_CLOSE: u8 = 93;

/// Append a token to the innermost open scope.
pub open spec fn stack_push_tok(stack: Seq<Seq<RawTok>>, t: RawTok) -> Seq<Seq<RawTok>> {
    stack.update(stack.len() - 1, stack[stack.len() - 1].push(t))
}

/// Close the innermost open scope: it becomes a loop token of its parent.
pub open spec fn stack_pop_merge(stack: Seq<Seq<RawTok>>) -> Seq<Seq<RawTok>> {
    stack.subrange(0, stack.len() - 2).push(
        stack[stack.len() - 2].push(RawTok::Loop(stack[stack.len() - 1])),
    )
}

/// At end of stream every scope still open is closed in turn: a `[`
/// without a matching `]` still contributes its loop.
pub open spec fn collapse_stack(stack: Seq<Seq<RawTok>>) -> Seq<RawTok>
    decreases stack.len(),
{
    if stack.len() == 0 {
        Seq::empty()
    } else if stack.len() == 1 {
        stack[0]
    } else {
        collapse_stack(stack_pop_merge(stack))
    }
}

/// One left-to-right scan of the source bytes from position `i` with the
/// given stack of open scopes. The eight significant characters build
/// tokens and open or close scopes; every other byte is a comment. A `]`
/// with no enclosing `[` ends parsing early, ignoring the rest of the
/// stream.
pub open spec fn parse_fold(s: Seq<u8>, i: int, stack: Seq<Seq<RawTok>>) -> Seq<RawTok>
    decreases s.len() - i,
        when 0 <= i <= s.len() && stack.len() >= 1
{
    if i == s.len() {
        collapse_stack(stack)
    } else {
        let c = s[i];
        if c == TOK_INC {
            parse_fold(s, i + 1, stack_push_tok(stack, RawTok::ValInc))
        } else if c == TOK_DEC {
            parse_fold(s, i + 1, stack_push_tok(stack, RawTok::ValDec))
        } else if c == TOK_RIGHT {
            parse_fold(s, i + 1, stack_push_tok(stack, RawTok::PtrInc))
        } else if c == TOK_LEFT {
            parse_fold(s, i + 1, stack_push_tok(stack, RawTok::PtrDec))
        } else if c == TOK_WRITE {
            parse_fold(s, i + 1, stack_push_tok(stack, RawTok::Write))
        } else if c == TOK_READ {
            parse_fold(s, i + 1, stack_push_tok(stack, RawTok::Read))
        } else if c == TOK_OPEN {
            parse_fold(s, i + 1, stack.push(Seq::empty()))
        } else if c == TOK_CLOSE {
            if stack.len() == 1 {
                stack[0]
            } else {
                parse_fold(s, i + 1, stack_pop_merge(stack))
            }
        } else {
            parse_fold(s, i + 1, stack)
        }
    }
}

/// The raw token tree a byte stream denotes.
pub open spec fn parse_spec(s: Seq<u8>) -> Seq<RawTok> {
    parse_fold(s, 0, seq![Seq::<RawTok>::empty()])
}

/// The scopes denoted by an executable stack of open scopes.
pub open spec fn stack_view(st: Seq<Vec<BfTok>>) -> Seq<Seq<RawTok>> {
    Seq::new(st.len(), |j: int| bf_view_seq(st[j]@))
}

/// Append a token to the innermost open scope of the executable stack.
fn push_tok(stack: &mut Vec<Vec<BfTok>>, t: BfTok)
    requires
        old(stack)@.len() >= 1,
    ensures
        final(stack)@.len() == old(stack)@.len(),
        stack_view(final(stack)@) == stack_push_tok(stack_view(old(stack)@), bf_view_tok(t)),
{
    let ghost t0 = t;
    let mut top = stack.pop().unwrap();
    let ghost top0 = top@;
    top.push(t);
    stack.push(top);
    proof {
        assert(top@.subrange(0, top@.len() - 1) =~= top0);
        assert(bf_view_seq(top@) == bf_view_seq(top0).push(bf_view_tok(t0)));
        assert(stack_view(stack@) =~= stack_push_tok(stack_view(old(stack)@), bf_view_tok(t0)));
    }
}

/// Close the innermost open scope of the executable stack.
fn pop_merge(stack: &mut Vec<Vec<BfTok>>)
    requires
        old(stack)@.len() >= 2,
    ensures
        final(stack)@.len() == old(stack)@.len() - 1,
        stack_view(final(stack)@) == stack_pop_merge(stack_view(old(stack)@)),
{
    let top = stack.pop().unwrap();
    let ghost topv = top@;
    let mut parent = stack.pop().unwrap();
    let ghost par0 = parent@;
    let newtok = BfTok::Loop(BfScope { toks: top });
    proof {
        assert(bf_view_tok(newtok) == RawTok::Loop(bf_view_seq(topv)));
    }
    parent.push(newtok);
    stack.push(parent);
    proof {
        assert(parent@.subrange(0, parent@.len() - 1) =~= par0);
        assert(parent@[parent@.len() - 1] == newtok);
        assert(bf_view_seq(parent@) == bf_view_seq(par0).push(RawTok::Loop(bf_view_seq(topv))));
        assert(stack_view(stack@) =~= stack_pop_merge(stack_view(old(stack)@)));
    }
}

/// Parse a byte stream into a raw token tree: one token per significant
/// character, everything else ignored as comments, loops nested by
/// bracket pairs, unmatched brackets tolerated as the folding semantics
/// describes.
#[verifier::loop_isolation(false)]
#[verifier::rlimit(100)]
pub fn parse_bytes(src: &[u8]) -> (r: BfScope)
    ensures
        r@ == parse_spec(src@),
{
    let mut stack: Vec<Vec<BfTok>> = Vec::new();
    stack.push(Vec::new());
    let mut i: usize = 0;
    proof {
        assert(stack_view(stack@) =~= seq![Seq::<RawTok>::empty()]) by {
            assert(bf_view_seq(Seq::<BfTok>::empty()) =~= Seq::<RawTok>::empty());
        }
    }
    while i < src.len()
        invariant
            i <= src@.len(),
            stack@.len() >= 1,
            parse_spec(src@) == parse_fold(src@, i as int, stack_view(stack@)),
        decreases src@.len() - i,
    {
        let c = *vstd::slice::slice_index_get(src, i);
        let ghost sv = stack_view(stack@);
        if c == TOK_INC {
            push_tok(&mut stack, BfTok::ValInc);
        } else if c == TOK_DEC {
            push_tok(&mut stack, BfTok::ValDec);
        } else if c == TOK_RIGHT {
            push_tok(&mut stack, BfTok::PtrInc);
        } else if c == TOK_LEFT {
            push_tok(&mut stack, BfTok::PtrDec);
        } else if c == TOK_WRITE {
            push_tok(&mut stack, BfTok::Write);
        } else if c == TOK_READ {
            push_tok(&mut stack, BfTok::Read);
        } else if c == TOK_OPEN {
            stack.push(Vec::new());
            proof {
                assert(stack_view(stack@) =~= sv.push(Seq::empty())) by {
                    assert(bf_view_seq(Seq::<BfTok>::empty()) =~= Seq::<RawTok>::empty());
                }
            }
        } else if c == TOK_CLOSE {
            if stack.len() == 1 {
                // a stray `]` ends the whole parse early
                let top = stack.pop().unwrap();
                return BfScope { toks: top };
            } else {
                pop_merge(&mut stack);
            }
        } else {
            // a comment byte
        }
        i = i + 1;
    }
    // end of stream: close every scope still open
    while stack.len() > 1
        invariant
            stack@.len() >= 1,
            parse_spec(src@) == collapse_stack(stack_view(stack@)),
        decreases stack@.len(),
    {
        pop_merge(&mut stack);
    }
    let top = stack.pop().unwrap();
    BfScope { toks: top }
}

} // verus!
