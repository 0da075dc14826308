use crate::bytes::{be16, be32, be64, from_be16, from_be32, from_be64, lemma_be16, lemma_be32, lemma_be64};
use crate::change::ChangeId;
use crate::decoder::{after, be32_at, holds_prefixed, parse_many, prefixed, sized_range, Decode, Parsed};
use crate::delete::DeleteItem;
use crate::encoder::{encode_seq, lemma_encode_seq_concat, Encode};
use crate::id::{Id, IdRange};
use vstd::prelude::*;
use vstd::utf8::{decode_utf8, encode_utf8, encode_utf8_decode_utf8, encode_utf8_valid_utf8, valid_utf8};

verus! {

/// The deep views of the items of `s`.
pub open spec fn deep_views<T: DeepView>(s: Seq<T>) -> Seq<T::V> {
    Seq::new(s.len(), |i: int| s[i].deep_view())
}

/// Values whose decoding reads back their encoding.
pub trait Roundtrip: Encode + Decode {
    /// Whether reading the encoding back stays within the 32-bit arithmetic of the reader.
    spec fn reads_back(&self) -> bool;

    /// Reading the encoding of a value gives back the value, and takes exactly the bytes
    /// of the encoding, whatever bytes follow.
    proof fn lemma_roundtrip(&self, rest: Seq<u8>)
        requires
            self.encodable(),
            self.reads_back(),
        ensures
            Self::parse(self.encoding() + rest) == Parsed::Value(
                self.deep_view(),
                self.encoding().len(),
            ),
    ;
}

/// The first four bytes of a 32-bit value written big-endian read back as the value.
pub proof fn lemma_be32_at(x: u32, rest: Seq<u8>)
    ensures
        be32_at(be32(x) + rest) == x,
        (be32(x) + rest).skip(4) == rest,
{
    lemma_be32(x);
    let b = be32(x) + rest;
    assert(b[0] == be32(x)[0] && b[1] == be32(x)[1] && b[2] == be32(x)[2] && b[3] == be32(x)[3]);
    assert(b.skip(4) =~= rest);
}

proof fn lemma_assoc2(a: Seq<u8>, b: Seq<u8>, rest: Seq<u8>)
    ensures
        a + b + rest == a + (b + rest),
{
    assert(a + b + rest =~= a + (b + rest));
}

proof fn lemma_assoc3(a: Seq<u8>, b: Seq<u8>, c: Seq<u8>, rest: Seq<u8>)
    ensures
        a + b + c + rest == a + (b + (c + rest)),
{
    assert(a + b + c + rest =~= a + (b + (c + rest)));
}

impl Roundtrip for u8 {
    open spec fn reads_back(&self) -> bool {
        true
    }

    proof fn lemma_roundtrip(&self, rest: Seq<u8>) {
        assert((seq![*self] + rest)[0] == *self);
    }
}

impl Roundtrip for u16 {
    open spec fn reads_back(&self) -> bool {
        true
    }

    proof fn lemma_roundtrip(&self, rest: Seq<u8>) {
        lemma_be16(*self);
        let b = be16(*self) + rest;
        assert(b[0] == be16(*self)[0] && b[1] == be16(*self)[1]);
    }
}

impl Roundtrip for u32 {
    open spec fn reads_back(&self) -> bool {
        true
    }

    proof fn lemma_roundtrip(&self, rest: Seq<u8>) {
        lemma_be32_at(*self, rest);
    }
}

impl Roundtrip for u64 {
    open spec fn reads_back(&self) -> bool {
        true
    }

    proof fn lemma_roundtrip(&self, rest: Seq<u8>) {
        lemma_be64(*self);
        let e = be64(*self);
        let b = e + rest;
        assert(b[0] == e[0] && b[1] == e[1] && b[2] == e[2] && b[3] == e[3]);
        assert(b[4] == e[4] && b[5] == e[5] && b[6] == e[6] && b[7] == e[7]);
        assert(from_be64(b) == from_be64(e));
    }
}

impl Roundtrip for Id {
    open spec fn reads_back(&self) -> bool {
        true
    }

    proof fn lemma_roundtrip(&self, rest: Seq<u8>) {
        lemma_assoc2(be32(self.client), be32(self.clock), rest);
        lemma_be32_at(self.client, be32(self.clock) + rest);
        lemma_be32_at(self.clock, rest);
    }
}

/// A range reads back when its last tick is not the greatest clock tick: the reader
/// computes one past the last tick.
impl Roundtrip for IdRange {
    open spec fn reads_back(&self) -> bool {
        self.end < u32::MAX
    }

    proof fn lemma_roundtrip(&self, rest: Seq<u8>) {
        let size = (self.end - self.start + 1) as u32;
        lemma_assoc3(be32(self.client), be32(self.start), be32(size), rest);
        lemma_be32_at(self.client, be32(self.start) + (be32(size) + rest));
        lemma_be32_at(self.start, be32(size) + rest);
        lemma_be32_at(size, rest);
        assert(sized_range(self.client, self.start, size) == Parsed::Value(*self, 12));
    }
}

impl Roundtrip for ChangeId {
    open spec fn reads_back(&self) -> bool {
        true
    }

    #[verifier::spinoff_prover]
    #[verifier::rlimit(30)]
    proof fn lemma_roundtrip(&self, rest: Seq<u8>) {
        lemma_assoc3(be32(self.client), be32(self.start), be32(self.end), rest);
        lemma_be32_at(self.client, be32(self.start) + (be32(self.end) + rest));
        lemma_be32_at(self.start, be32(self.end) + rest);
        lemma_be32_at(self.end, rest);
    }
}

impl Roundtrip for DeleteItem {
    open spec fn reads_back(&self) -> bool {
        self.range.reads_back()
    }

    proof fn lemma_roundtrip(&self, rest: Seq<u8>) {
        let b = self.encoding() + rest;
        assert(b =~= self.id.encoding() + (self.range.encoding() + rest));
        self.id.lemma_roundtrip(self.range.encoding() + rest);
        assert(b.skip(8) =~= self.range.encoding() + rest);
        self.range.lemma_roundtrip(rest);
    }
}

/// A string reads back when its byte length fits in 32 bits.
impl Roundtrip for String {
    open spec fn reads_back(&self) -> bool {
        encode_utf8(self@).len() <= u32::MAX
    }

    proof fn lemma_roundtrip(&self, rest: Seq<u8>) {
        let bytes = encode_utf8(self@);
        let n = bytes.len() as u32;
        let b = self.encoding() + rest;
        assert(b =~= be32(n) + (bytes + rest));
        lemma_be32_at(n, bytes + rest);
        assert(holds_prefixed(b));
        assert(prefixed(b) =~= bytes);
        encode_utf8_valid_utf8(self@);
        encode_utf8_decode_utf8(self@);
    }
}

/// Reading `xs.len()` values from the encodings of `xs`, one after the other, gives back
/// the values of `xs` in order and takes exactly their bytes, whatever bytes follow.
pub proof fn lemma_read_back_sequence<T: Roundtrip>(xs: Seq<T>, rest: Seq<u8>)
    requires
        forall|i: int| 0 <= i < xs.len() ==> (#[trigger] xs[i]).encodable() && xs[i].reads_back(),
    ensures
        parse_many::<T>(encode_seq(xs) + rest, xs.len()) == Parsed::Value(
            deep_views(xs),
            encode_seq(xs).len(),
        ),
    decreases xs.len(),
{
    if xs.len() == 0 {
        assert(deep_views(xs) =~= Seq::<T::V>::empty());
    } else {
        let head = xs[0];
        let tail = xs.drop_first();
        lemma_encode_seq_concat(seq![head], tail);
        assert(seq![head] + tail =~= xs);
        assert(seq![head].drop_last() =~= Seq::<T>::empty());
        assert(encode_seq(Seq::<T>::empty()) == Seq::<u8>::empty());
        assert(encode_seq(seq![head]) =~= head.encoding());
        let b = encode_seq(xs) + rest;
        assert(b =~= head.encoding() + (encode_seq(tail) + rest));
        head.lemma_roundtrip(encode_seq(tail) + rest);
        assert(b.skip(head.encoding().len() as int) =~= encode_seq(tail) + rest);
        assert forall|i: int| 0 <= i < tail.len() implies (#[trigger] tail[i]).encodable()
            && tail[i].reads_back() by {
            assert(tail[i] == xs[i + 1]);
        }
        lemma_read_back_sequence(tail, rest);
        assert(seq![head.deep_view()] + deep_views(tail) =~= deep_views(xs));
    }
}

/// A list reads back when its length fits in 32 bits and every item reads back.
impl<T: Roundtrip> Roundtrip for Vec<T> {
    open spec fn reads_back(&self) -> bool {
        &&& self@.len() <= u32::MAX
        &&& forall|i: int| 0 <= i < self@.len() ==> (#[trigger] self@[i]).reads_back()
    }

    proof fn lemma_roundtrip(&self, rest: Seq<u8>) {
        let n = self@.len() as u32;
        let b = self.encoding() + rest;
        assert(b =~= be32(n) + (encode_seq(self@) + rest));
        lemma_be32_at(n, encode_seq(self@) + rest);
        assert forall|i: int| 0 <= i < self@.len() implies (#[trigger] self@[i]).encodable()
            && self@[i].reads_back() by {}
        lemma_read_back_sequence(self@, rest);
        assert(deep_views(self@) =~= self.deep_view());
        assert(Seq::<T::V>::empty() + self.deep_view() =~= self.deep_view());
    }
}

impl<T: Roundtrip> Roundtrip for Box<T> {
    open spec fn reads_back(&self) -> bool {
        (**self).reads_back()
    }

    proof fn lemma_roundtrip(&self, rest: Seq<u8>) {
        (**self).lemma_roundtrip(rest);
    }
}

} // verus!
