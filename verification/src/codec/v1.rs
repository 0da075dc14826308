use crate::bytes::{be32, be64};
use crate::codec::decoder::Decoder;
use crate::codec::encoder::Encoder;
use crate::codec_v1::{capacity_of, shrink, string_from_utf8, BUF_STEP, INIT_SIZE, VERSION};
use crate::decoder::{be32_at, holds_prefixed, prefixed};
use vstd::prelude::*;
use vstd::string::StringSliceAdditionalSpecFns;
use vstd::utf8::encode_utf8_decode_utf8;

verus! {

/// Writes the version-one binary format into a growing buffer.
#[derive(Debug)]
pub struct EncoderV1 {
    buf: Vec<u8>,
}

impl Default for EncoderV1 {
    fn default() -> (r: Self)
        ensures
            r.wf(),
            r.written() == seq![VERSION],
    {
        Self::new(INIT_SIZE)
    }
}

impl EncoderV1 {
    /// An encoder whose buffer starts with room for `size` bytes and holds the header.
    pub fn new(size: usize) -> (r: Self)
        ensures
            r.wf(),
            r.written() == seq![VERSION],
    {
        let e = EncoderV1 { buf: Vec::with_capacity(size) };
        e.write_header()
    }

    /// Grows the buffer when `size` more bytes would not fit; the bytes stay.
    fn ensure_capacity(&mut self, size: usize)
        requires
            old(self).buf@.len() + size <= usize::MAX,
        ensures
            final(self).buf@ == old(self).buf@,
    {
        if self.buf.len() + size > capacity_of(&self.buf) {
            self.buf.reserve(BUF_STEP);
        }
    }

    fn write_header(self) -> (r: Self)
        requires
            self.buf@.len() == 0,
        ensures
            r.wf(),
            r.written() == seq![VERSION],
    {
        let mut e = self;
        e.ensure_capacity(1);
        e.buf.push(VERSION);
        e
    }

    /// Appends bytes one by one.
    fn push_all(&mut self, value: &[u8])
        requires
            old(self).wf(),
            old(self).buf@.len() + value@.len() <= usize::MAX,
        ensures
            final(self).wf(),
            final(self).buf@ == old(self).buf@ + value@,
    {
        let mut i: usize = 0;
        while i < value.len()
            invariant
                self.wf(),
                i <= value@.len(),
                old(self).buf@.len() + value@.len() <= usize::MAX,
                self.buf@ == old(self).buf@ + value@.take(i as int),
            decreases value@.len() - i,
        {
            self.buf.push(value[i]);
            i = i + 1;
            assert(self.buf@ =~= old(self).buf@ + value@.take(i as int));
        }
        assert(value@.take(value@.len() as int) =~= value@);
    }

    /// Hands the bytes written to a decoder.
    pub fn decoder(self) -> (r: DecoderV1)
        requires
            self.wf(),
        ensures
            r.wf(),
            r.rest() == self.written().skip(1),
    {
        DecoderV1::new(self.buf)
    }
}

impl Encoder for EncoderV1 {
    closed spec fn written(&self) -> Seq<u8> {
        self.buf@
    }

    closed spec fn wf(&self) -> bool {
        self.buf@.len() >= 1 && self.buf@[0] == VERSION
    }

    fn u8(&mut self, value: u8) {
        self.ensure_capacity(1);
        self.buf.push(value);
    }

    fn u32(&mut self, value: u32) {
        self.ensure_capacity(4);
        self.buf.push((value >> 24u32) as u8);
        self.buf.push((value >> 16u32) as u8);
        self.buf.push((value >> 8u32) as u8);
        self.buf.push(value as u8);
        assert(self.buf@ =~= old(self).buf@ + be32(value));
    }

    fn u64(&mut self, value: u64) {
        self.ensure_capacity(8);
        self.buf.push((value >> 56u64) as u8);
        self.buf.push((value >> 48u64) as u8);
        self.buf.push((value >> 40u64) as u8);
        self.buf.push((value >> 32u64) as u8);
        self.buf.push((value >> 24u64) as u8);
        self.buf.push((value >> 16u64) as u8);
        self.buf.push((value >> 8u64) as u8);
        self.buf.push(value as u8);
        assert(self.buf@ =~= old(self).buf@ + be64(value));
    }

    fn string(&mut self, value: &str) {
        let bytes = value.as_bytes();
        self.ensure_capacity(value.len() + 4);
        self.u32(value.len() as u32);
        self.push_all(bytes);
        assert(self.buf@ =~= old(self).buf@ + be32(value.spec_bytes().len() as u32)
            + value.spec_bytes());
    }

    fn bytes(&mut self, value: &[u8]) {
        self.ensure_capacity(value.len() + 4);
        self.u32(value.len() as u32);
        self.push_all(value);
        assert(self.buf@ =~= old(self).buf@ + be32(value@.len() as u32) + value@);
    }

    fn slice(&mut self, value: &[u8]) {
        self.push_all(value);
    }

    fn trim(&mut self) {
        shrink(&mut self.buf);
    }

    fn buffer(self) -> (r: Vec<u8>) {
        self.buf
    }

    fn size(&self) -> (r: usize) {
        self.buf.len()
    }
}

/// Reads the version-one binary format from a buffer.
pub struct DecoderV1 {
    buf: Vec<u8>,
    pos: usize,
}

impl DecoderV1 {
    /// A decoder over `buf`, past its header. The header must be the version byte.
    pub fn new(buf: Vec<u8>) -> (r: Self)
        requires
            buf@.len() >= 1,
            buf@[0] == VERSION,
        ensures
            r.wf(),
            r.rest() == buf@.skip(1),
    {
        let _ = buf.len();
        DecoderV1 { buf, pos: 1 }
    }

    proof fn lemma_rest(&self)
        requires
            self.wf(),
        ensures
            self.rest().len() == self.buf@.len() - self.pos,
            forall|i: int|
                0 <= i < self.rest().len() ==> #[trigger] self.rest()[i] == self.buf@[self.pos + i],
    {
    }

    /// Moves past the next `n` bytes.
    fn advance(&mut self, n: usize)
        requires
            old(self).wf(),
            n <= old(self).rest().len(),
        ensures
            final(self).wf(),
            final(self).rest() == old(self).rest().skip(n as int),
    {
        proof {
            self.lemma_rest();
        }
        self.pos = self.pos + n;
        proof {
            self.lemma_rest();
        }
        assert(self.rest() =~= old(self).rest().skip(n as int));
    }

    /// Copies the next `len` bytes.
    fn take_bytes(&self, len: usize) -> (r: Vec<u8>)
        requires
            self.wf(),
            len <= self.rest().len(),
        ensures
            r@ == self.rest().take(len as int),
    {
        let mut v: Vec<u8> = Vec::new();
        let mut i: usize = 0;
        while i < len
            invariant
                self.wf(),
                i <= len,
                len <= self.rest().len(),
                v@ == self.rest().take(i as int),
            decreases len - i,
        {
            proof {
                self.lemma_rest();
            }
            v.push(self.buf[self.pos + i]);
            i = i + 1;
            assert(v@ =~= self.rest().take(i as int));
        }
        v
    }
}

impl Decoder for DecoderV1 {
    closed spec fn rest(&self) -> Seq<u8> {
        self.buf@.skip(self.pos as int)
    }

    closed spec fn wf(&self) -> bool {
        self.pos <= self.buf@.len() <= usize::MAX
    }

    fn u8(&mut self) -> (r: Result<u8, String>) {
        proof {
            self.lemma_rest();
        }
        let value = self.buf[self.pos];
        self.advance(1);
        Ok(value)
    }

    fn u32(&mut self) -> (r: Result<u32, String>) {
        proof {
            self.lemma_rest();
        }
        let p = self.pos;
        let value = ((self.buf[p] as u32) << 24u32) | ((self.buf[p + 1] as u32) << 16u32) | ((
        self.buf[p + 2] as u32) << 8u32) | (self.buf[p + 3] as u32);
        self.advance(4);
        Ok(value)
    }

    fn u64(&mut self) -> (r: Result<u64, String>) {
        proof {
            self.lemma_rest();
        }
        let p = self.pos;
        let value = ((self.buf[p] as u64) << 56u64) | ((self.buf[p + 1] as u64) << 48u64) | ((
        self.buf[p + 2] as u64) << 40u64) | ((self.buf[p + 3] as u64) << 32u64) | ((self.buf[p
            + 4] as u64) << 24u64) | ((self.buf[p + 5] as u64) << 16u64) | ((self.buf[p + 6] as u64)
            << 8u64) | (self.buf[p + 7] as u64);
        self.advance(8);
        Ok(value)
    }

    fn string(&mut self) -> (r: Result<String, String>) {
        let len = match self.u32() {
            Ok(n) => n as usize,
            Err(e) => return Err(e),
        };
        let ghost before = old(self).rest();
        assert(self.rest() == before.skip(4));
        let bytes = self.take_bytes(len);
        assert(bytes@ =~= prefixed(before));
        match string_from_utf8(bytes) {
            Ok(value) => {
                self.advance(len);
                proof {
                    encode_utf8_decode_utf8(value@);
                }
                assert(self.rest() =~= before.skip(4 + len));
                Ok(value)
            },
            Err(_) => Err("decoder: invalid utf8 string".to_owned()),
        }
    }

    fn bytes(&mut self) -> (r: Result<Vec<u8>, String>) {
        let len = match self.u32() {
            Ok(n) => n as usize,
            Err(e) => return Err(e),
        };
        let ghost before = old(self).rest();
        let value = self.take_bytes(len);
        self.advance(len);
        assert(value@ =~= prefixed(before));
        assert(self.rest() =~= before.skip(4 + len));
        Ok(value)
    }

    fn slice(&mut self, len: usize) -> (r: Result<Vec<u8>, String>) {
        let value = self.take_bytes(len);
        self.advance(len);
        Ok(value)
    }
}

} // verus!
