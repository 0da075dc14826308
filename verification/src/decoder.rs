use crate::bytes::{from_be16, from_be32, from_be64};
use crate::change::ChangeId;
use crate::delete::DeleteItem;
use crate::id::{Id, IdRange};
use vstd::prelude::*;
use vstd::utf8::{decode_utf8, valid_utf8};

verus! {

/// The 32-bit big-endian value at the front of `b`.
pub open spec fn be32_at(b: Seq<u8>) -> u32 {
    from_be32(b[0], b[1], b[2], b[3])
}

/// The bytes of a length-prefixed field: the length, then that many bytes.
pub open spec fn prefixed(b: Seq<u8>) -> Seq<u8> {
    b.subrange(4, 4 + be32_at(b) as int)
}

/// Whether `b` holds a whole length-prefixed field.
pub open spec fn holds_prefixed(b: Seq<u8>) -> bool {
    b.len() >= 4 && b.len() >= 4 + be32_at(b)
}

/// A source of bytes in the document's binary format, read from the front.
pub trait Decoder {
    /// The bytes not read yet.
    spec fn rest(&self) -> Seq<u8>;

    spec fn wf(&self) -> bool;

    fn u8(&mut self) -> (r: Result<u8, String>)
        requires
            old(self).wf(),
            old(self).rest().len() >= 1,
        ensures
            final(self).wf(),
            r == Ok::<u8, String>(old(self).rest()[0]),
            final(self).rest() == old(self).rest().skip(1),
    ;

    fn u16(&mut self) -> (r: Result<u16, String>)
        requires
            old(self).wf(),
            old(self).rest().len() >= 2,
        ensures
            final(self).wf(),
            r == Ok::<u16, String>(from_be16(old(self).rest()[0], old(self).rest()[1])),
            final(self).rest() == old(self).rest().skip(2),
    ;

    fn u32(&mut self) -> (r: Result<u32, String>)
        requires
            old(self).wf(),
            old(self).rest().len() >= 4,
        ensures
            final(self).wf(),
            r == Ok::<u32, String>(be32_at(old(self).rest())),
            final(self).rest() == old(self).rest().skip(4),
    ;

    fn u64(&mut self) -> (r: Result<u64, String>)
        requires
            old(self).wf(),
            old(self).rest().len() >= 8,
        ensures
            final(self).wf(),
            r == Ok::<u64, String>(from_be64(old(self).rest())),
            final(self).rest() == old(self).rest().skip(8),
    ;

    /// Reads the sixteen bytes of an id.
    fn uuid(&mut self) -> (r: Result<[u8; 16], String>)
        requires
            old(self).wf(),
            old(self).rest().len() >= 16,
        ensures
            final(self).wf(),
            r matches Ok(a) && a@ == old(self).rest().take(16),
            final(self).rest() == old(self).rest().skip(16),
    ;

    /// Reads a length-prefixed UTF-8 string. Bytes that are not UTF-8 are an error, and
    /// then only the length has been read.
    fn string(&mut self) -> (r: Result<String, String>)
        requires
            old(self).wf(),
            holds_prefixed(old(self).rest()),
        ensures
            final(self).wf(),
            valid_utf8(prefixed(old(self).rest())) ==> (r matches Ok(s) && s@ == decode_utf8(
                prefixed(old(self).rest()),
            ) && final(self).rest() == old(self).rest().skip(
                4 + be32_at(old(self).rest()) as int,
            )),
            !valid_utf8(prefixed(old(self).rest())) ==> r is Err && final(self).rest() == old(
                self,
            ).rest().skip(4),
    ;

    /// Reads length-prefixed bytes.
    fn bytes(&mut self) -> (r: Result<Vec<u8>, String>)
        requires
            old(self).wf(),
            holds_prefixed(old(self).rest()),
        ensures
            final(self).wf(),
            r matches Ok(v) && v@ == prefixed(old(self).rest()),
            final(self).rest() == old(self).rest().skip(4 + be32_at(old(self).rest()) as int),
    ;

    /// Reads the next `len` bytes as they are.
    fn slice(&mut self, len: usize) -> (r: Result<Vec<u8>, String>)
        requires
            old(self).wf(),
            len <= old(self).rest().len(),
        ensures
            final(self).wf(),
            r matches Ok(v) && v@ == old(self).rest().take(len as int),
            final(self).rest() == old(self).rest().skip(len as int),
    ;
}

/// What a decoding carries besides the source: the format version.
#[derive(Debug, Clone, Default)]
pub struct DecodeContext {
    pub version: u8,
}

impl DecodeContext {
    pub fn new(version: u8) -> (r: DecodeContext)
        ensures
            r.version == version,
    {
        DecodeContext { version }
    }
}

/// What reading a value from the front of some bytes comes to.
pub enum Parsed<V> {
    /// Reading runs past the bytes, or overflows: the reader would fault.
    Fault,
    /// The bytes are refused with an error.
    Invalid,
    /// A value, and the number of bytes it took.
    Value(V, nat),
}

/// Puts a value read first, which took `w` bytes, in front of what was read after it.
pub open spec fn after<V>(first: Seq<V>, w: nat, then: Parsed<Seq<V>>) -> Parsed<Seq<V>> {
    match then {
        Parsed::Value(vs, w2) => Parsed::Value(first + vs, w + w2),
        Parsed::Fault => Parsed::Fault,
        Parsed::Invalid => Parsed::Invalid,
    }
}

/// Values with a binary decoding.
pub trait Decode: Sized + DeepView {
    /// What reading a value from the front of `bytes` gives.
    spec fn parse(bytes: Seq<u8>) -> Parsed<<Self as DeepView>::V>;

    fn decode<D: Decoder>(d: &mut D, ctx: &DecodeContext) -> (r: Result<Self, String>)
        requires
            old(d).wf(),
            !(Self::parse(old(d).rest()) is Fault),
        ensures
            final(d).wf(),
            match Self::parse(old(d).rest()) {
                Parsed::Value(v, w) => r matches Ok(x) && x.deep_view() == v && w <= old(
                    d,
                ).rest().len() && final(d).rest() == old(d).rest().skip(w as int),
                Parsed::Invalid => r is Err,
                Parsed::Fault => true,
            },
    ;
}

/// What reading `n` values one after the other from the front of `bytes` gives.
pub open spec fn parse_many<T: Decode>(bytes: Seq<u8>, n: nat) -> Parsed<Seq<T::V>>
    decreases n,
{
    if n == 0 {
        Parsed::Value(Seq::empty(), 0)
    } else {
        match T::parse(bytes) {
            Parsed::Value(v, w) => after(seq![v], w, parse_many::<T>(bytes.skip(w as int), (n - 1) as nat)),
            Parsed::Fault => Parsed::Fault,
            Parsed::Invalid => Parsed::Invalid,
        }
    }
}

pub proof fn lemma_after_after<V>(a: Seq<V>, w: nat, b: Seq<V>, w2: nat, p: Parsed<Seq<V>>)
    ensures
        after(a, w, after(b, w2, p)) == after(a + b, w + w2, p),
{
    match p {
        Parsed::Value(vs, w3) => {
            assert(a + (b + vs) =~= (a + b) + vs);
        },
        _ => {},
    }
}

impl Decode for u8 {
    open spec fn parse(bytes: Seq<u8>) -> Parsed<u8> {
        if bytes.len() < 1 {
            Parsed::Fault
        } else {
            Parsed::Value(bytes[0], 1)
        }
    }

    fn decode<D: Decoder>(d: &mut D, _ctx: &DecodeContext) -> (r: Result<u8, String>) {
        d.u8()
    }
}

impl Decode for u16 {
    open spec fn parse(bytes: Seq<u8>) -> Parsed<u16> {
        if bytes.len() < 2 {
            Parsed::Fault
        } else {
            Parsed::Value(from_be16(bytes[0], bytes[1]), 2)
        }
    }

    fn decode<D: Decoder>(d: &mut D, _ctx: &DecodeContext) -> (r: Result<u16, String>) {
        d.u16()
    }
}

impl Decode for u32 {
    open spec fn parse(bytes: Seq<u8>) -> Parsed<u32> {
        if bytes.len() < 4 {
            Parsed::Fault
        } else {
            Parsed::Value(be32_at(bytes), 4)
        }
    }

    fn decode<D: Decoder>(d: &mut D, _ctx: &DecodeContext) -> (r: Result<u32, String>) {
        d.u32()
    }
}

impl Decode for u64 {
    open spec fn parse(bytes: Seq<u8>) -> Parsed<u64> {
        if bytes.len() < 8 {
            Parsed::Fault
        } else {
            Parsed::Value(from_be64(bytes), 8)
        }
    }

    fn decode<D: Decoder>(d: &mut D, _ctx: &DecodeContext) -> (r: Result<u64, String>) {
        d.u64()
    }
}

/// A flag is one byte; any byte but zero is true.
impl Decode for bool {
    open spec fn parse(bytes: Seq<u8>) -> Parsed<bool> {
        if bytes.len() < 1 {
            Parsed::Fault
        } else {
            Parsed::Value(bytes[0] != 0, 1)
        }
    }

    fn decode<D: Decoder>(d: &mut D, _ctx: &DecodeContext) -> (r: Result<bool, String>) {
        match d.u8() {
            Ok(b) => Ok(b != 0),
            Err(e) => Err(e),
        }
    }
}

impl Decode for String {
    open spec fn parse(bytes: Seq<u8>) -> Parsed<Seq<char>> {
        if !holds_prefixed(bytes) {
            Parsed::Fault
        } else if valid_utf8(prefixed(bytes)) {
            Parsed::Value(decode_utf8(prefixed(bytes)), (4 + be32_at(bytes)) as nat)
        } else {
            Parsed::Invalid
        }
    }

    fn decode<D: Decoder>(d: &mut D, _ctx: &DecodeContext) -> (r: Result<String, String>) {
        d.string()
    }
}

/// A list is its length as 32 bits, then its items.
impl<T: Decode> Decode for Vec<T> {
    open spec fn parse(bytes: Seq<u8>) -> Parsed<Seq<T::V>> {
        if bytes.len() < 4 {
            Parsed::Fault
        } else {
            after(Seq::empty(), 4, parse_many::<T>(bytes.skip(4), be32_at(bytes) as nat))
        }
    }

    fn decode<D: Decoder>(d: &mut D, ctx: &DecodeContext) -> (r: Result<Vec<T>, String>) {
        let len = match d.u32() {
            Ok(n) => n,
            Err(e) => return Err(e),
        };
        let ghost start = d.rest();
        let ghost whole = parse_many::<T>(start, len as nat);
        proof {
            assert(old(d).rest().skip(4) == start);
            assert(Self::parse(old(d).rest()) == after(Seq::<T::V>::empty(), 4, whole));
            assert(after(Seq::<T::V>::empty(), 0, whole) == whole) by {
                match whole {
                    Parsed::Value(vs, w) => {
                        assert(Seq::<T::V>::empty() + vs =~= vs);
                    },
                    _ => {},
                }
            }
        }
        let mut vec: Vec<T> = Vec::new();
        let mut i: u32 = 0;
        let ghost mut used: nat = 0;
        while i < len
            invariant
                d.wf(),
                i <= len,
                used <= start.len(),
                d.rest() == start.skip(used as int),
                whole == parse_many::<T>(start, len as nat),
                !(whole is Fault),
                Self::parse(old(d).rest()) == after(Seq::<T::V>::empty(), 4, whole),
                old(d).rest().skip(4) == start,
                whole == after(vec.deep_view(), used, parse_many::<T>(d.rest(), (len - i) as nat)),
            decreases len - i,
        {
            let ghost before = d.rest();
            let ghost tail = parse_many::<T>(before, (len - i - 1) as nat);
            proof {
                assert(!(T::parse(before) is Fault)) by {
                    if T::parse(before) is Fault {
                        assert(parse_many::<T>(before, (len - i) as nat) is Fault);
                    }
                }
            }
            match T::decode(d, ctx) {
                Ok(v) => {
                    let ghost old_dv = vec.deep_view();
                    let ghost x = T::parse(before)->Value_0;
                    let ghost w = T::parse(before)->Value_1;
                    vec.push(v);
                    proof {
                        assert(parse_many::<T>(before, (len - i) as nat) == after(
                            seq![x],
                            w,
                            parse_many::<T>(before.skip(w as int), (len - i - 1) as nat),
                        ));
                        lemma_after_after(old_dv, used, seq![x], w, parse_many::<T>(
                            before.skip(w as int), (len - i - 1) as nat,
                        ));
                        assert(start.skip(used as int).skip(w as int) =~= start.skip(
                            (used + w) as int,
                        ));
                        assert(vec.deep_view() =~= old_dv + seq![x]);
                        used = used + w;
                    }
                },
                Err(e) => {
                    proof {
                        assert(T::parse(before) is Invalid);
                        assert(parse_many::<T>(before, (len - i) as nat) is Invalid);
                        assert(whole is Invalid);
                        assert(Self::parse(old(d).rest()) is Invalid);
                    }
                    return Err(e);
                },
            }
            i = i + 1;
        }
        proof {
            assert(parse_many::<T>(d.rest(), 0) == Parsed::Value(Seq::<T::V>::empty(), 0));
            assert(vec.deep_view() + Seq::<T::V>::empty() =~= vec.deep_view());
            assert(old(d).rest().skip(4).skip(used as int) =~= old(d).rest().skip((4 + used) as int));
        }
        Ok(vec)
    }
}

/// An optional value is a flag byte, then the value when the flag is not zero.
impl<T: Decode> Decode for Option<T> {
    open spec fn parse(bytes: Seq<u8>) -> Parsed<Option<T::V>> {
        if bytes.len() < 1 {
            Parsed::Fault
        } else if bytes[0] != 0 {
            match T::parse(bytes.skip(1)) {
                Parsed::Value(v, w) => Parsed::Value(Some(v), w + 1),
                Parsed::Fault => Parsed::Fault,
                Parsed::Invalid => Parsed::Invalid,
            }
        } else {
            Parsed::Value(None, 1)
        }
    }

    fn decode<D: Decoder>(d: &mut D, ctx: &DecodeContext) -> (r: Result<Option<T>, String>) {
        let has_value = match d.u8() {
            Ok(b) => b != 0,
            Err(e) => return Err(e),
        };
        if has_value {
            match T::decode(d, ctx) {
                Ok(v) => {
                    assert(old(d).rest().skip(1).skip(
                        (T::parse(old(d).rest().skip(1))->Value_1) as int,
                    ) =~= old(d).rest().skip((T::parse(old(d).rest().skip(1))->Value_1 + 1) as int));
                    Ok(Some(v))
                },
                Err(e) => Err(e),
            }
        } else {
            Ok(None)
        }
    }
}

impl<T: Decode> Decode for Box<T> {
    open spec fn parse(bytes: Seq<u8>) -> Parsed<T::V> {
        T::parse(bytes)
    }

    fn decode<D: Decoder>(d: &mut D, ctx: &DecodeContext) -> (r: Result<Box<T>, String>) {
        match T::decode(d, ctx) {
            Ok(v) => Ok(Box::new(v)),
            Err(e) => Err(e),
        }
    }
}

/// An id is its client, then its clock.
impl Decode for Id {
    open spec fn parse(bytes: Seq<u8>) -> Parsed<Id> {
        if bytes.len() < 8 {
            Parsed::Fault
        } else {
            Parsed::Value(Id { client: be32_at(bytes), clock: be32_at(bytes.skip(4)) }, 8)
        }
    }

    fn decode<D: Decoder>(d: &mut D, _ctx: &DecodeContext) -> (r: Result<Id, String>) {
        let client = match d.u32() {
            Ok(v) => v,
            Err(e) => return Err(e),
        };
        let clock = match d.u32() {
            Ok(v) => v,
            Err(e) => return Err(e),
        };
        assert(old(d).rest().skip(4).skip(4) =~= old(d).rest().skip(8));
        Ok(Id::new(client, clock))
    }
}

/// The range that starts at `start` and holds `size` ticks; it exists when the last
/// tick, `start + size - 1`, computed in 32 bits, neither overflows nor underflows.
pub open spec fn sized_range(client: u32, start: u32, size: u32) -> Parsed<IdRange> {
    if start + size > u32::MAX || start + size == 0 {
        Parsed::Fault
    } else {
        Parsed::Value(IdRange { client, start, end: (start + size - 1) as u32 }, 12)
    }
}

/// A range is its client, its start and its size.
impl Decode for IdRange {
    open spec fn parse(bytes: Seq<u8>) -> Parsed<IdRange> {
        if bytes.len() < 12 {
            Parsed::Fault
        } else {
            sized_range(be32_at(bytes), be32_at(bytes.skip(4)), be32_at(bytes.skip(8)))
        }
    }

    fn decode<D: Decoder>(d: &mut D, _ctx: &DecodeContext) -> (r: Result<IdRange, String>) {
        let client = match d.u32() {
            Ok(v) => v,
            Err(e) => return Err(e),
        };
        let start = match d.u32() {
            Ok(v) => v,
            Err(e) => return Err(e),
        };
        let size = match d.u32() {
            Ok(v) => v,
            Err(e) => return Err(e),
        };
        assert(old(d).rest().skip(4).skip(4) =~= old(d).rest().skip(8));
        assert(old(d).rest().skip(8).skip(4) =~= old(d).rest().skip(12));
        Ok(IdRange::new(client, start, start + size - 1))
    }
}

/// A change is its client, its first tick and its last tick.
impl Decode for ChangeId {
    open spec fn parse(bytes: Seq<u8>) -> Parsed<ChangeId> {
        if bytes.len() < 12 {
            Parsed::Fault
        } else {
            Parsed::Value(
                ChangeId {
                    client: be32_at(bytes),
                    start: be32_at(bytes.skip(4)),
                    end: be32_at(bytes.skip(8)),
                },
                12,
            )
        }
    }

    fn decode<D: Decoder>(d: &mut D, _ctx: &DecodeContext) -> (r: Result<ChangeId, String>) {
        let client = match d.u32() {
            Ok(v) => v,
            Err(e) => return Err(e),
        };
        let start = match d.u32() {
            Ok(v) => v,
            Err(e) => return Err(e),
        };
        let end = match d.u32() {
            Ok(v) => v,
            Err(e) => return Err(e),
        };
        assert(old(d).rest().skip(4).skip(4) =~= old(d).rest().skip(8));
        assert(old(d).rest().skip(8).skip(4) =~= old(d).rest().skip(12));
        Ok(ChangeId::new(client, start, end))
    }
}

/// A deletion is the id of the deleting operation, then the deleted range.
impl Decode for DeleteItem {
    open spec fn parse(bytes: Seq<u8>) -> Parsed<DeleteItem> {
        match Id::parse(bytes) {
            Parsed::Value(id, w) => match IdRange::parse(bytes.skip(8)) {
                Parsed::Value(range, w2) => Parsed::Value(DeleteItem { id, range }, w + w2),
                Parsed::Fault => Parsed::Fault,
                Parsed::Invalid => Parsed::Invalid,
            },
            Parsed::Fault => Parsed::Fault,
            Parsed::Invalid => Parsed::Invalid,
        }
    }

    fn decode<D: Decoder>(d: &mut D, ctx: &DecodeContext) -> (r: Result<DeleteItem, String>) {
        let id = match Id::decode(d, ctx) {
            Ok(v) => v,
            Err(e) => return Err(e),
        };
        let range = match IdRange::decode(d, ctx) {
            Ok(v) => v,
            Err(e) => return Err(e),
        };
        assert(old(d).rest().skip(8).skip(12) =~= old(d).rest().skip(20));
        Ok(DeleteItem::new(id, range))
    }
}

} // verus!
