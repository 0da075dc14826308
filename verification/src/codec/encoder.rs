use crate::bytes::be32;
use vstd::prelude::*;
use vstd::string::StringSliceAdditionalSpecFns;

verus! {

/// A sink of bytes written in the document's binary format.
pub trait Encoder {
    /// Every byte written so far.
    spec fn written(&self) -> Seq<u8>;

    spec fn wf(&self) -> bool;

    fn u8(&mut self, value: u8)
        requires
            old(self).wf(),
            old(self).written().len() + 1 <= usize::MAX,
        ensures
            final(self).wf(),
            final(self).written() == old(self).written().push(value),
    ;

    fn u32(&mut self, value: u32)
        requires
            old(self).wf(),
            old(self).written().len() + 4 <= usize::MAX,
        ensures
            final(self).wf(),
            final(self).written() == old(self).written() + be32(value),
    ;

    fn u64(&mut self, value: u64)
        requires
            old(self).wf(),
            old(self).written().len() + 8 <= usize::MAX,
        ensures
            final(self).wf(),
            final(self).written() == old(self).written() + crate::bytes::be64(value),
    ;

    /// Writes the byte length of the string, cut to 32 bits, then its UTF-8 bytes.
    fn string(&mut self, value: &str)
        requires
            old(self).wf(),
            old(self).written().len() + 4 + value.spec_bytes().len() <= usize::MAX,
        ensures
            final(self).wf(),
            final(self).written() == old(self).written() + be32(value.spec_bytes().len() as u32)
                + value.spec_bytes(),
    ;

    /// Writes the length of the bytes, cut to 32 bits, then the bytes.
    fn bytes(&mut self, value: &[u8])
        requires
            old(self).wf(),
            old(self).written().len() + 4 + value@.len() <= usize::MAX,
        ensures
            final(self).wf(),
            final(self).written() == old(self).written() + be32(value@.len() as u32) + value@,
    ;

    /// Writes the bytes as they are.
    fn slice(&mut self, value: &[u8])
        requires
            old(self).wf(),
            old(self).written().len() + value@.len() <= usize::MAX,
        ensures
            final(self).wf(),
            final(self).written() == old(self).written() + value@,
    ;

    /// Releases spare room; the bytes stay.
    fn trim(&mut self)
        requires
            old(self).wf(),
        ensures
            final(self).wf(),
            final(self).written() == old(self).written(),
    ;

    /// Every byte written, handing over the buffer.
    fn buffer(self) -> (r: Vec<u8>)
        requires
            self.wf(),
        ensures
            r@ == self.written(),
    ;

    /// The number of bytes written.
    fn size(&self) -> (r: usize)
        requires
            self.wf(),
        ensures
            r == self.written().len(),
    ;
}

/// What an encoding carries besides the sink: the format version.
#[derive(Clone, Default, Debug)]
pub struct EncodeContext {
    pub version: u8,
}

} // verus!
