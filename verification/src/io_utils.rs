//! The byte-stream collaborator a program runs against: an in-memory
//! input queue with a configurable end-of-input policy, and an output
//! buffer.

use vstd::prelude::*;

verus! {

/// In-memory standard input and output of one program run. A `None`
/// end-of-input policy makes a read past the end a fatal abort; `Some(b)`
/// substitutes `b` forever after exhaustion.
pub struct ByteIo {
    input: Vec<u8>,
    eoi: Option<u8>,
    output: Vec<u8>,
}

/// When end-of-input is reached, what should a read yield?
pub trait ProgramEOI {
    /// `None` to abort the run; `Some(b)` to keep yielding `b`.
    spec fn policy() -> Option<u8>;

    fn get() -> (r: Option<u8>)
        ensures
            r == Self::policy(),
    ;
}

/// Abort the run when end-of-input is reached.
pub struct EOIPanic;

impl ProgramEOI for EOIPanic {
    open spec fn policy() -> Option<u8> {
        None
    }

    fn get() -> (r: Option<u8>) {
        None
    }
}

/// Keep yielding the byte `N` after end-of-input.
pub struct EOIEmit<const N: u8>;

impl<const N: u8> ProgramEOI for EOIEmit<N> {
    open spec fn policy() -> Option<u8> {
        Some(N)
    }

    fn get() -> (r: Option<u8>) {
        Some(N)
    }
}

impl ByteIo {
    /// The input bytes not yet consumed.
    pub closed spec fn in_view(&self) -> Seq<u8> {
        self.input@
    }

    /// The configured end-of-input policy.
    pub closed spec fn eoi_view(&self) -> Option<u8> {
        self.eoi
    }

    /// The bytes written so far.
    pub closed spec fn out_view(&self) -> Seq<u8> {
        self.output@
    }

    /// A fresh stream pair: the given input, the given end-of-input
    /// policy, nothing written yet.
    pub fn new(input: Vec<u8>, eoi: Option<u8>) -> (r: ByteIo)
        ensures
            r.in_view() == input@,
            r.eoi_view() == eoi,
            r.out_view() == Seq::<u8>::empty(),
    {
        ByteIo { input, eoi, output: Vec::new() }
    }

    /// A fresh stream pair whose end-of-input behavior is the policy
    /// type's.
    pub fn with_policy<E: ProgramEOI>(input: Vec<u8>) -> (r: ByteIo)
        ensures
            r.in_view() == input@,
            r.eoi_view() == E::policy(),
            r.out_view() == Seq::<u8>::empty(),
    {
        ByteIo { input, eoi: E::get(), output: Vec::new() }
    }

    /// Consume one input byte: the next queued byte, or whatever the
    /// end-of-input policy yields once the queue is empty.
    pub fn read_byte(&mut self) -> (r: Option<u8>)
        ensures
            final(self).eoi_view() == old(self).eoi_view(),
            final(self).out_view() == old(self).out_view(),
            match r {
                Some(b) => if old(self).in_view().len() > 0 {
                    b == old(self).in_view()[0] && final(self).in_view() == old(
                        self,
                    ).in_view().subrange(1, old(self).in_view().len() as int)
                } else {
                    old(self).eoi_view() == Some(b) && final(self).in_view() == old(
                        self,
                    ).in_view()
                },
                None => {
                    &&& old(self).in_view().len() == 0
                    &&& old(self).eoi_view() is None
                    &&& final(self).in_view() == old(self).in_view()
                },
            },
    {
        if self.input.len() > 0 {
            let ghost in0 = self.input@;
            let b = self.input.remove(0);
            proof {
                assert(self.input@ =~= in0.subrange(1, in0.len() as int));
            }
            Some(b)
        } else {
            self.eoi
        }
    }

    /// Emit one byte.
    pub fn write_byte(&mut self, b: u8)
        ensures
            final(self).eoi_view() == old(self).eoi_view(),
            final(self).in_view() == old(self).in_view(),
            final(self).out_view() == old(self).out_view().push(b),
    {
        self.output.push(b);
    }

    /// The same streams with the unread input replaced.
    pub fn with_stdin(self, input: Vec<u8>) -> (r: ByteIo)
        ensures
            r.in_view() == input@,
            r.eoi_view() == self.eoi_view(),
            r.out_view() == self.out_view(),
    {
        ByteIo { input, eoi: self.eoi, output: self.output }
    }

    /// The same streams with the output buffer replaced; later writes
    /// append to the given buffer.
    pub fn with_stdout(self, output: Vec<u8>) -> (r: ByteIo)
        ensures
            r.in_view() == self.in_view(),
            r.eoi_view() == self.eoi_view(),
            r.out_view() == output@,
    {
        ByteIo { input: self.input, eoi: self.eoi, output }
    }

    /// The bytes written so far, for a caller that wants to inspect them.
    pub fn output(&self) -> (r: &Vec<u8>)
        ensures
            r@ == self.out_view(),
    {
        &self.output
    }

    /// Give up the streams, keeping only what was written.
    pub fn into_output(self) -> (r: Vec<u8>)
        ensures
            r@ == self.out_view(),
    {
        self.output
    }
}

/// Empty input that substitutes zero bytes forever, and a kept output
/// buffer: the quiet collaborator for a run nobody interacts with.
pub fn void() -> (r: ByteIo)
    ensures
        r.in_view() == Seq::<u8>::empty(),
        r.eoi_view() == Some(0u8),
        r.out_view() == Seq::<u8>::empty(),
{
    ByteIo::new(Vec::new(), Some(0))
}

} // verus!
