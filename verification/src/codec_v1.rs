use crate::bytes::{be16, be32, be64, from_be16, from_be32, from_be64};
use crate::decoder::{be32_at, holds_prefixed, prefixed, Decoder};
use crate::encoder::Encoder;
use vstd::prelude::*;
use vstd::string::StringSliceAdditionalSpecFns;
use vstd::utf8::{decode_utf8, encode_utf8, encode_utf8_decode_utf8, valid_utf8};

verus! {

/// The format version written as the first byte of every buffer.
pub const VERSION: u8 = 1;

/// How much room the buffer grows by when it runs out.
pub const BUF_STEP: usize = 1024;

/// How much room a new encoder starts with.
pub const INIT_SIZE: usize = 1024;

/// Calls `Vec::capacity`; std documents the capacity as never below the length, and
/// nothing more of its value, which the allocator decides.
#[verifier::external_body]
pub(crate) fn capacity_of(v: &Vec<u8>) -> (r: usize)
    ensures
        r >= v@.len(),
{
    v.capacity()
}

/// Calls `Vec::shrink_to_fit`, which std documents to release spare room and keep the
/// elements.
#[verifier::external_body]
pub(crate) fn shrink(v: &mut Vec<u8>)
    ensures
        final(v)@ == old(v)@,
{
    v.shrink_to_fit()
}

/// Calls `String::from_utf8`, which std documents to succeed exactly when the bytes are
/// valid UTF-8, with a string made of those bytes; its error is turned into its message.
#[verifier::external_body]
pub(crate) fn string_from_utf8(bytes: Vec<u8>) -> (r: Result<String, String>)
    ensures
        r is Ok <==> valid_utf8(bytes@),
        r matches Ok(s) ==> encode_utf8(s@) == bytes@,
{
    match String::from_utf8(bytes) {
        Ok(s) => Ok(s),
        Err(e) => Err(e.to_string()),
    }
}

/// Writes the version-one binary format into a growing buffer.
#[derive(Debug, Clone)]
pub struct EncoderV1 {
    buf: Vec<u8>,
    pos: usize,
}

impl EncoderV1 {
    /// An encoder that has written the header and nothing else.
    pub fn new() -> (r: Self)
        ensures
            r.wf(),
            r.written() == seq![VERSION],
    {
        Self::with_capacity(INIT_SIZE)
    }

    /// An encoder whose buffer starts with room for `size` bytes.
    pub fn with_capacity(size: usize) -> (r: Self)
        ensures
            r.wf(),
            r.written() == seq![VERSION],
    {
        let e = EncoderV1 { buf: Vec::with_capacity(size), pos: 0 };
        e.write_header()
    }

    /// Grows the buffer when `size` more bytes would not fit; the bytes stay.
    fn ensure_capacity(&mut self, size: usize)
        requires
            old(self).buf@.len() + size <= usize::MAX,
        ensures
            final(self).buf@ == old(self).buf@,
            final(self).pos == old(self).pos,
    {
        if self.buf.len() + size > capacity_of(&self.buf) {
            self.buf.reserve(BUF_STEP);
        }
    }

    fn write_header(self) -> (r: Self)
        requires
            self.buf@.len() == 0,
            self.pos == 0,
        ensures
            r.wf(),
            r.written() == seq![VERSION],
    {
        let mut e = self;
        e.ensure_capacity(1);
        e.buf.push(VERSION);
        e.pos = e.pos + 1;
        e
    }

    /// Appends bytes one by one.
    fn push_all(&mut self, value: &[u8])
        requires
            old(self).wf(),
            old(self).buf@.len() + value@.len() <= usize::MAX,
        ensures
            final(self).wf(),
            final(self).buf@ == old(self).buf@ + value@,
    {
        let mut i: usize = 0;
        while i < value.len()
            invariant
                self.wf(),
                i <= value@.len(),
                old(self).buf@.len() + value@.len() <= usize::MAX,
                self.buf@ == old(self).buf@ + value@.take(i as int),
            decreases value@.len() - i,
        {
            self.buf.push(value[i]);
            self.pos = self.pos + 1;
            i = i + 1;
            assert(self.buf@ =~= old(self).buf@ + value@.take(i as int));
        }
        assert(value@.take(value@.len() as int) =~= value@);
    }

    /// Releases spare room and hands out a decoder over a copy of the bytes written.
    pub fn decoder(&mut self) -> (r: DecoderV1)
        requires
            old(self).wf(),
        ensures
            final(self).wf(),
            final(self).written() == old(self).written(),
            r.wf(),
            r.rest() == old(self).written().skip(1),
    {
        self.finish();
        let buf = self.buf.clone();
        assert(buf@ =~= self.buf@);
        DecoderV1::new(buf)
    }
}

impl Encoder for EncoderV1 {
    closed spec fn written(&self) -> Seq<u8> {
        self.buf@
    }

    closed spec fn wf(&self) -> bool {
        &&& self.pos == self.buf@.len()
        &&& self.buf@.len() >= 1
        &&& self.buf@[0] == VERSION
    }

    fn u8(&mut self, value: u8) {
        self.ensure_capacity(1);
        self.buf.push(value);
        self.pos = self.pos + 1;
    }

    fn u16(&mut self, value: u16) {
        self.ensure_capacity(2);
        self.buf.push((value >> 8u16) as u8);
        self.buf.push(value as u8);
        self.pos = self.pos + 2;
        assert(self.buf@ =~= old(self).buf@ + be16(value));
    }

    fn u32(&mut self, value: u32) {
        self.ensure_capacity(4);
        self.buf.push((value >> 24u32) as u8);
        self.buf.push((value >> 16u32) as u8);
        self.buf.push((value >> 8u32) as u8);
        self.buf.push(value as u8);
        self.pos = self.pos + 4;
        assert(self.buf@ =~= old(self).buf@ + be32(value));
    }

    fn u64(&mut self, value: u64) {
        self.ensure_capacity(8);
        self.buf.push((value >> 56u64) as u8);
        self.buf.push((value >> 48u64) as u8);
        self.buf.push((value >> 40u64) as u8);
        self.buf.push((value >> 32u64) as u8);
        self.buf.push((value >> 24u64) as u8);
        self.buf.push((value >> 16u64) as u8);
        self.buf.push((value >> 8u64) as u8);
        self.buf.push(value as u8);
        self.pos = self.pos + 8;
        assert(self.buf@ =~= old(self).buf@ + be64(value));
    }

    fn uuid(&mut self, value: &[u8]) {
        self.ensure_capacity(16);
        self.push_all(value);
    }

    fn string(&mut self, value: &str) {
        let bytes = value.as_bytes();
        self.u32(value.len() as u32);
        self.ensure_capacity(value.len());
        self.push_all(bytes);
        assert(self.buf@ =~= old(self).buf@ + be32(value.spec_bytes().len() as u32)
            + value.spec_bytes());
    }

    fn bytes(&mut self, value: &[u8]) {
        self.ensure_capacity(value.len() + 4);
        self.u32(value.len() as u32);
        self.push_all(value);
        assert(self.buf@ =~= old(self).buf@ + be32(value@.len() as u32) + value@);
    }

    fn slice(&mut self, value: &[u8]) {
        self.push_all(value);
    }

    fn finish(&mut self) {
        shrink(&mut self.buf);
    }

    fn buffer(&self) -> (r: Vec<u8>) {
        let r = self.buf.clone();
        assert(r@ =~= self.buf@);
        r
    }

    fn size(&self) -> (r: usize) {
        self.buf.len()
    }
}

/// Reads the version-one binary format from a buffer.
pub struct DecoderV1 {
    buf: Vec<u8>,
    pos: usize,
}

impl DecoderV1 {
    /// A decoder over `buf`, past its header. The header must be the version byte.
    pub fn new(buf: Vec<u8>) -> (r: Self)
        requires
            buf@.len() >= 1,
            buf@[0] == VERSION,
        ensures
            r.wf(),
            r.rest() == buf@.skip(1),
    {
        let _ = buf.len();
        DecoderV1 { buf, pos: 1 }
    }

    proof fn lemma_rest(&self)
        requires
            self.wf(),
        ensures
            self.rest().len() == self.buf@.len() - self.pos,
            forall|i: int| 0 <= i < self.rest().len() ==> #[trigger] self.rest()[i] == self.buf@[self.pos + i],
    {
    }

    /// Moves past the next `n` bytes.
    fn advance(&mut self, n: usize)
        requires
            old(self).wf(),
            n <= old(self).rest().len(),
        ensures
            final(self).wf(),
            final(self).rest() == old(self).rest().skip(n as int),
    {
        proof {
            self.lemma_rest();
        }
        self.pos = self.pos + n;
        proof {
            self.lemma_rest();
        }
        assert(self.rest() =~= old(self).rest().skip(n as int));
    }

    /// Copies the next `len` bytes, from `pos` on.
    fn take_bytes(&self, len: usize) -> (r: Vec<u8>)
        requires
            self.wf(),
            len <= self.rest().len(),
        ensures
            r@ == self.rest().take(len as int),
    {
        let mut v: Vec<u8> = Vec::new();
        let mut i: usize = 0;
        while i < len
            invariant
                self.wf(),
                i <= len,
                len <= self.rest().len(),
                v@ == self.rest().take(i as int),
            decreases len - i,
        {
            proof {
                self.lemma_rest();
            }
            v.push(self.buf[self.pos + i]);
            i = i + 1;
            assert(v@ =~= self.rest().take(i as int));
        }
        v
    }
}

impl Decoder for DecoderV1 {
    closed spec fn rest(&self) -> Seq<u8> {
        self.buf@.skip(self.pos as int)
    }

    closed spec fn wf(&self) -> bool {
        self.pos <= self.buf@.len() <= usize::MAX
    }

    fn u8(&mut self) -> (r: Result<u8, String>) {
        proof {
            self.lemma_rest();
        }
        let value = self.buf[self.pos];
        self.pos = self.pos + 1;
        assert(self.rest() =~= old(self).rest().skip(1));
        Ok(value)
    }

    fn u16(&mut self) -> (r: Result<u16, String>) {
        proof {
            self.lemma_rest();
        }
        let p = self.pos;
        let value = ((self.buf[p] as u16) << 8u16) | (self.buf[p + 1] as u16);
        self.pos = p + 2;
        assert(self.rest() =~= old(self).rest().skip(2));
        Ok(value)
    }

    fn u32(&mut self) -> (r: Result<u32, String>) {
        proof {
            self.lemma_rest();
        }
        let p = self.pos;
        let value = ((self.buf[p] as u32) << 24u32) | ((self.buf[p + 1] as u32) << 16u32) | ((
        self.buf[p + 2] as u32) << 8u32) | (self.buf[p + 3] as u32);
        self.pos = p + 4;
        assert(self.rest() =~= old(self).rest().skip(4));
        Ok(value)
    }

    fn u64(&mut self) -> (r: Result<u64, String>) {
        proof {
            self.lemma_rest();
        }
        let p = self.pos;
        let value = ((self.buf[p] as u64) << 56u64) | ((self.buf[p + 1] as u64) << 48u64) | ((
        self.buf[p + 2] as u64) << 40u64) | ((self.buf[p + 3] as u64) << 32u64) | ((self.buf[p
            + 4] as u64) << 24u64) | ((self.buf[p + 5] as u64) << 16u64) | ((self.buf[p + 6] as u64)
            << 8u64) | (self.buf[p + 7] as u64);
        self.pos = p + 8;
        assert(self.rest() =~= old(self).rest().skip(8));
        Ok(value)
    }

    fn uuid(&mut self) -> (r: Result<[u8; 16], String>) {
        proof {
            self.lemma_rest();
        }
        let p = self.pos;
        let mut value = [0u8; 16];
        let mut i: usize = 0;
        while i < 16
            invariant
                self.wf(),
                self.pos == p,
                i <= 16,
                self.rest().len() >= 16,
                forall|k: int| 0 <= k < i ==> value@[k] == self.rest()[k],
            decreases 16 - i,
        {
            value.set(i, self.buf[p + i]);
            i = i + 1;
        }
        self.pos = p + 16;
        assert(value@ =~= old(self).rest().take(16));
        assert(self.rest() =~= old(self).rest().skip(16));
        Ok(value)
    }

    fn string(&mut self) -> (r: Result<String, String>) {
        let len = match self.u32() {
            Ok(n) => n as usize,
            Err(e) => return Err(e),
        };
        let ghost before = old(self).rest();
        proof {
            old(self).lemma_rest();
            self.lemma_rest();
        }
        assert(self.rest() == before.skip(4));
        let bytes = self.take_bytes(len);
        assert(bytes@ =~= prefixed(before));
        match string_from_utf8(bytes) {
            Ok(value) => {
                self.advance(len);
                proof {
                    encode_utf8_decode_utf8(value@);
                }
                assert(self.rest() =~= before.skip(4 + len));
                Ok(value)
            },
            Err(_) => Err("decoder: invalid utf8 string".to_owned()),
        }
    }

    fn bytes(&mut self) -> (r: Result<Vec<u8>, String>) {
        let len = match self.u32() {
            Ok(n) => n as usize,
            Err(e) => return Err(e),
        };
        let ghost before = old(self).rest();
        proof {
            old(self).lemma_rest();
            self.lemma_rest();
        }
        let value = self.take_bytes(len);
        self.advance(len);
        assert(value@ =~= prefixed(before));
        assert(self.rest() =~= before.skip(4 + len));
        Ok(value)
    }

    fn slice(&mut self, len: usize) -> (r: Result<Vec<u8>, String>) {
        proof {
            self.lemma_rest();
        }
        let value = self.take_bytes(len);
        self.advance(len);
        Ok(value)
    }
}

} // verus!
