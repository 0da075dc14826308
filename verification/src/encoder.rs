use crate::bytes::{be16, be32, be64};
use crate::change::ChangeId;
use crate::delete::DeleteItem;
use crate::id::{Id, IdRange};
use vstd::prelude::*;
use vstd::string::StringSliceAdditionalSpecFns;
use vstd::utf8::encode_utf8;

verus! {

/// A sink of bytes written in the document's binary format.
pub trait Encoder {
    /// Every byte written so far.
    spec fn written(&self) -> Seq<u8>;

    spec fn wf(&self) -> bool;

    fn u8(&mut self, value: u8)
        requires
            old(self).wf(),
            old(self).written().len() + 1 <= usize::MAX,
        ensures
            final(self).wf(),
            final(self).written() == old(self).written().push(value),
    ;

    fn u16(&mut self, value: u16)
        requires
            old(self).wf(),
            old(self).written().len() + 2 <= usize::MAX,
        ensures
            final(self).wf(),
            final(self).written() == old(self).written() + be16(value),
    ;

    fn u32(&mut self, value: u32)
        requires
            old(self).wf(),
            old(self).written().len() + 4 <= usize::MAX,
        ensures
            final(self).wf(),
            final(self).written() == old(self).written() + be32(value),
    ;

    fn u64(&mut self, value: u64)
        requires
            old(self).wf(),
            old(self).written().len() + 8 <= usize::MAX,
        ensures
            final(self).wf(),
            final(self).written() == old(self).written() + be64(value),
    ;

    /// Writes the sixteen bytes of an id.
    fn uuid(&mut self, value: &[u8])
        requires
            old(self).wf(),
            value@.len() == 16,
            old(self).written().len() + 16 <= usize::MAX,
        ensures
            final(self).wf(),
            final(self).written() == old(self).written() + value@,
    ;

    /// Writes the byte length of the string, cut to 32 bits, then its UTF-8 bytes.
    fn string(&mut self, value: &str)
        requires
            old(self).wf(),
            old(self).written().len() + 4 + value.spec_bytes().len() <= usize::MAX,
        ensures
            final(self).wf(),
            final(self).written() == old(self).written() + be32(value.spec_bytes().len() as u32)
                + value.spec_bytes(),
    ;

    /// Writes the length of the bytes, cut to 32 bits, then the bytes.
    fn bytes(&mut self, value: &[u8])
        requires
            old(self).wf(),
            old(self).written().len() + 4 + value@.len() <= usize::MAX,
        ensures
            final(self).wf(),
            final(self).written() == old(self).written() + be32(value@.len() as u32) + value@,
    ;

    /// Writes the bytes as they are.
    fn slice(&mut self, value: &[u8])
        requires
            old(self).wf(),
            old(self).written().len() + value@.len() <= usize::MAX,
        ensures
            final(self).wf(),
            final(self).written() == old(self).written() + value@,
    ;

    /// Releases spare room; the bytes stay.
    fn finish(&mut self)
        requires
            old(self).wf(),
        ensures
            final(self).wf(),
            final(self).written() == old(self).written(),
    ;

    /// A copy of every byte written.
    fn buffer(&self) -> (r: Vec<u8>)
        requires
            self.wf(),
        ensures
            r@ == self.written(),
    ;

    /// The number of bytes written.
    fn size(&self) -> (r: usize)
        requires
            self.wf(),
        ensures
            r == self.written().len(),
    ;
}

/// What an encoding carries besides the sink: the format version.
#[derive(Default, Clone, Debug)]
pub struct EncodeContext {
    pub version: u8,
}

impl EncodeContext {
    pub fn new(version: u8) -> (r: EncodeContext)
        ensures
            r.version == version,
    {
        EncodeContext { version }
    }
}

/// Values with a binary encoding.
pub trait Encode {
    /// The bytes that encode the value.
    spec fn encoding(&self) -> Seq<u8>;

    /// Whether the value can be encoded without an arithmetic fault.
    spec fn encodable(&self) -> bool;

    fn encode<E: Encoder>(&self, e: &mut E, cx: &mut EncodeContext)
        requires
            self.encodable(),
            old(e).wf(),
            old(e).written().len() + self.encoding().len() <= usize::MAX,
        ensures
            final(e).wf(),
            final(e).written() == old(e).written() + self.encoding(),
    ;
}

impl Encode for u8 {
    open spec fn encoding(&self) -> Seq<u8> {
        seq![*self]
    }

    open spec fn encodable(&self) -> bool {
        true
    }

    fn encode<E: Encoder>(&self, e: &mut E, _cx: &mut EncodeContext) {
        e.u8(*self);
        assert(e.written() =~= old(e).written() + seq![*self]);
    }
}

impl Encode for u16 {
    open spec fn encoding(&self) -> Seq<u8> {
        be16(*self)
    }

    open spec fn encodable(&self) -> bool {
        true
    }

    fn encode<E: Encoder>(&self, e: &mut E, _cx: &mut EncodeContext) {
        e.u16(*self);
    }
}

impl Encode for u32 {
    open spec fn encoding(&self) -> Seq<u8> {
        be32(*self)
    }

    open spec fn encodable(&self) -> bool {
        true
    }

    fn encode<E: Encoder>(&self, e: &mut E, _cx: &mut EncodeContext) {
        e.u32(*self);
    }
}

impl Encode for u64 {
    open spec fn encoding(&self) -> Seq<u8> {
        be64(*self)
    }

    open spec fn encodable(&self) -> bool {
        true
    }

    fn encode<E: Encoder>(&self, e: &mut E, _cx: &mut EncodeContext) {
        e.u64(*self);
    }
}

impl Encode for Id {
    open spec fn encoding(&self) -> Seq<u8> {
        be32(self.client) + be32(self.clock)
    }

    open spec fn encodable(&self) -> bool {
        true
    }

    fn encode<E: Encoder>(&self, e: &mut E, _cx: &mut EncodeContext) {
        e.u32(self.client);
        e.u32(self.clock);
        assert(e.written() =~= old(e).written() + self.encoding());
    }
}

/// A range is written as its client, its start and its size.
impl Encode for IdRange {
    open spec fn encoding(&self) -> Seq<u8> {
        be32(self.client) + be32(self.start) + be32((self.end - self.start + 1) as u32)
    }

    /// The range must not be reversed, nor cover every tick.
    open spec fn encodable(&self) -> bool {
        self.start <= self.end && self.end - self.start + 1 <= u32::MAX
    }

    fn encode<E: Encoder>(&self, e: &mut E, _cx: &mut EncodeContext) {
        e.u32(self.client);
        e.u32(self.start);
        e.u32(self.size());
        assert(e.written() =~= old(e).written() + self.encoding());
    }
}

impl Encode for ChangeId {
    open spec fn encoding(&self) -> Seq<u8> {
        be32(self.client) + be32(self.start) + be32(self.end)
    }

    open spec fn encodable(&self) -> bool {
        true
    }

    #[inline]
    fn encode<E: Encoder>(&self, e: &mut E, _cx: &mut EncodeContext) {
        e.u32(self.client);
        e.u32(self.start);
        e.u32(self.end);
        assert(e.written() =~= old(e).written() + self.encoding());
    }
}

/// A deletion is the id of the deleting operation, then the deleted range.
impl Encode for DeleteItem {
    open spec fn encoding(&self) -> Seq<u8> {
        self.id.encoding() + self.range.encoding()
    }

    open spec fn encodable(&self) -> bool {
        self.range.encodable()
    }

    fn encode<E: Encoder>(&self, e: &mut E, cx: &mut EncodeContext) {
        self.id.encode(e, cx);
        self.range.encode(e, cx);
        assert(e.written() =~= old(e).written() + self.encoding());
    }
}

/// A string is its byte length as 32 bits, then its UTF-8 bytes.
impl Encode for String {
    open spec fn encoding(&self) -> Seq<u8> {
        be32(encode_utf8(self@).len() as u32) + encode_utf8(self@)
    }

    open spec fn encodable(&self) -> bool {
        true
    }

    fn encode<E: Encoder>(&self, e: &mut E, _cx: &mut EncodeContext) {
        e.string(self.as_str());
    }
}

/// The encodings of the items of `s`, one after the other.
pub open spec fn encode_seq<T: Encode>(s: Seq<T>) -> Seq<u8>
    decreases s.len(),
{
    if s.len() == 0 {
        Seq::empty()
    } else {
        encode_seq(s.drop_last()) + s.last().encoding()
    }
}

/// Encoding two lists one after the other gives the encoding of the joined list.
pub proof fn lemma_encode_seq_concat<T: Encode>(a: Seq<T>, b: Seq<T>)
    ensures
        encode_seq(a + b) == encode_seq(a) + encode_seq(b),
    decreases b.len(),
{
    if b.len() == 0 {
        assert(a + b =~= a);
        assert(encode_seq(a) + encode_seq(b) =~= encode_seq(a));
    } else {
        lemma_encode_seq_concat(a, b.drop_last());
        assert((a + b).drop_last() =~= a + b.drop_last());
        assert((a + b).last() == b.last());
        assert(encode_seq(a) + encode_seq(b) =~= encode_seq(a) + encode_seq(b.drop_last())
            + b.last().encoding());
    }
}

/// A list is its length as 32 bits, then its items.
impl<T: Encode> Encode for Vec<T> {
    open spec fn encoding(&self) -> Seq<u8> {
        be32(self@.len() as u32) + encode_seq(self@)
    }

    /// Every item can be encoded.
    open spec fn encodable(&self) -> bool {
        forall|i: int| 0 <= i < self@.len() ==> (#[trigger] self@[i]).encodable()
    }

    fn encode<E: Encoder>(&self, e: &mut E, cx: &mut EncodeContext) {
        e.u32(self.len() as u32);
        let ghost start = e.written();
        let mut i: usize = 0;
        while i < self.len()
            invariant
                e.wf(),
                i <= self@.len(),
                self.encodable(),
                start == old(e).written() + be32(self@.len() as u32),
                old(e).written().len() + self.encoding().len() <= usize::MAX,
                e.written() == start + encode_seq(self@.take(i as int)),
            decreases self@.len() - i,
        {
            proof {
                lemma_encode_seq_concat(self@.take(i as int + 1), self@.skip(i as int + 1));
                assert(self@.take(i as int + 1) + self@.skip(i as int + 1) =~= self@);
                assert(self@.take(i as int + 1).drop_last() =~= self@.take(i as int));
            }
            self[i].encode(e, cx);
            i = i + 1;
            assert(e.written() =~= start + encode_seq(self@.take(i as int)));
        }
        assert(self@.take(self@.len() as int) =~= self@);
    }
}

/// An optional value is the value's encoding when there is one, and nothing otherwise.
impl<T: Encode> Encode for Option<T> {
    open spec fn encoding(&self) -> Seq<u8> {
        match self {
            Some(v) => v.encoding(),
            None => Seq::empty(),
        }
    }

    open spec fn encodable(&self) -> bool {
        match self {
            Some(v) => v.encodable(),
            None => true,
        }
    }

    fn encode<E: Encoder>(&self, e: &mut E, cx: &mut EncodeContext) {
        match self {
            Some(value) => value.encode(e, cx),
            None => {
                assert(e.written() =~= old(e).written() + self.encoding());
            },
        }
    }
}

impl<T: Encode> Encode for Box<T> {
    open spec fn encoding(&self) -> Seq<u8> {
        (**self).encoding()
    }

    open spec fn encodable(&self) -> bool {
        (**self).encodable()
    }

    fn encode<E: Encoder>(&self, e: &mut E, cx: &mut EncodeContext) {
        (**self).encode(e, cx);
    }
}

} // verus!
