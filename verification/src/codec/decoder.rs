use crate::bytes::from_be64;
use crate::decoder::{be32_at, holds_prefixed, prefixed};
use vstd::prelude::*;
use vstd::utf8::{decode_utf8, valid_utf8};

verus! {

/// A source of bytes in the document's binary format, read from the front.
pub trait Decoder {
    /// The bytes not read yet.
    spec fn rest(&self) -> Seq<u8>;

    spec fn wf(&self) -> bool;

    fn u8(&mut self) -> (r: Result<u8, String>)
        requires
            old(self).wf(),
            old(self).rest().len() >= 1,
        ensures
            final(self).wf(),
            r == Ok::<u8, String>(old(self).rest()[0]),
            final(self).rest() == old(self).rest().skip(1),
    ;

    fn u32(&mut self) -> (r: Result<u32, String>)
        requires
            old(self).wf(),
            old(self).rest().len() >= 4,
        ensures
            final(self).wf(),
            r == Ok::<u32, String>(be32_at(old(self).rest())),
            final(self).rest() == old(self).rest().skip(4),
    ;

    fn u64(&mut self) -> (r: Result<u64, String>)
        requires
            old(self).wf(),
            old(self).rest().len() >= 8,
        ensures
            final(self).wf(),
            r == Ok::<u64, String>(from_be64(old(self).rest())),
            final(self).rest() == old(self).rest().skip(8),
    ;

    /// Reads a length-prefixed UTF-8 string. Bytes that are not UTF-8 are an error, and
    /// then only the length has been read.
    fn string(&mut self) -> (r: Result<String, String>)
        requires
            old(self).wf(),
            holds_prefixed(old(self).rest()),
        ensures
            final(self).wf(),
            valid_utf8(prefixed(old(self).rest())) ==> (r matches Ok(s) && s@ == decode_utf8(
                prefixed(old(self).rest()),
            ) && final(self).rest() == old(self).rest().skip(
                4 + be32_at(old(self).rest()) as int,
            )),
            !valid_utf8(prefixed(old(self).rest())) ==> r is Err && final(self).rest() == old(
                self,
            ).rest().skip(4),
    ;

    /// Reads length-prefixed bytes.
    fn bytes(&mut self) -> (r: Result<Vec<u8>, String>)
        requires
            old(self).wf(),
            holds_prefixed(old(self).rest()),
        ensures
            final(self).wf(),
            r matches Ok(v) && v@ == prefixed(old(self).rest()),
            final(self).rest() == old(self).rest().skip(4 + be32_at(old(self).rest()) as int),
    ;

    /// Reads the next `len` bytes as they are.
    fn slice(&mut self, len: usize) -> (r: Result<Vec<u8>, String>)
        requires
            old(self).wf(),
            len <= old(self).rest().len(),
        ensures
            final(self).wf(),
            r matches Ok(v) && v@ == old(self).rest().take(len as int),
            final(self).rest() == old(self).rest().skip(len as int),
    ;
}

/// What a decoding carries besides the source: the format version.
pub struct DecodeContext {
    pub version: u8,
}

} // verus!
