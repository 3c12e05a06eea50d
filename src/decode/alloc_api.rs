//! A growable output for the decoders.
use super::InfallibleDecodeOutput;
use crate::utils::{output_pixel, OutputByteOrder};
use vstd::prelude::*;

verus! {

/// An unbounded output: pixels are appended to a vector.
pub struct VecDecodeOutput {
    output: Vec<u16>,
    output_idx: usize,
}

impl VecDecodeOutput {
    /// An output that appends to `vec`, after what it already holds.
    pub fn new(vec: Vec<u16>) -> (r: Self)
        ensures
            r.wf(),
            r.written() == Seq::<u16>::empty(),
            r.limit() is None,
            r.buffer() == vec@,
    {
        let r = Self { output: vec, output_idx: 0 };
        assert(r.output@.skip(r.output@.len() as int) =~= Seq::<u16>::empty());
        r
    }

    /// The vector: what it held before, then the pixels written.
    pub closed spec fn buffer(&self) -> Seq<u16> {
        self.output@
    }

    /// Gives the vector back.
    pub fn into_inner(self) -> (r: Vec<u16>)
        ensures
            r@ == self.buffer(),
    {
        self.output
    }
}

impl InfallibleDecodeOutput for VecDecodeOutput {
    closed spec fn written(&self) -> Seq<u16> {
        self.output@.skip(self.output@.len() - self.output_idx)
    }

    closed spec fn limit(&self) -> Option<nat> {
        None
    }

    closed spec fn wf(&self) -> bool {
        self.output_idx <= self.output@.len()
    }

    fn write_pixel<B: OutputByteOrder>(&mut self, color: u16) {
        let c = B::to_output(color);
        self.output.push(c);
        self.output_idx += 1;
        assert(self.written() =~= old(self).written().push(c));
    }

    fn write_many_pixels<B: OutputByteOrder>(&mut self, color: u16, count: usize) {
        let out = B::to_output(color);
        let mut n: usize = 0;
        assert(old(self).written().len() == old(self).output_idx);
        while n < count
            invariant
                n <= count,
                old(self).output_idx + count <= usize::MAX,
                self.output_idx == old(self).output_idx + n,
                self.output@.len() == old(self).output@.len() + n,
                self.output@ == old(self).output@ + Seq::new(n as nat, |i: int| out),
            decreases count - n,
        {
            self.output.push(out);
            self.output_idx += 1;
            n += 1;
            assert(self.output@ =~= old(self).output@ + Seq::new(n as nat, |i: int| out));
        }
        assert(self.written() =~= old(self).written() + Seq::new(
            count as nat,
            |i: int| output_pixel(B::swapped(), color),
        ));
    }

    fn max_len(&self) -> (r: Option<usize>) {
        None
    }

    fn current_output_position(&self) -> (r: usize) {
        self.output_idx
    }
}

} // verus!
