use crate::bimapid::{has_id, injective, lemma_to_map_prefix, lists, pair_in, to_map, with_pair, EncoderMap, FieldMap};
use crate::bytes::be32;
use crate::codec_v1::string_from_utf8;
use crate::decoder::{after, be32_at, Decode, DecodeContext, Decoder, Parsed};
use crate::encoder::{EncodeContext, Encoder};
use vstd::prelude::*;
use vstd::utf8::{decode_utf8, encode_utf8, encode_utf8_decode_utf8, valid_utf8};

verus! {

/// The bytes of one name and its id: the name's byte length cut to 8 bits, the name's
/// UTF-8 bytes, then the id.
pub open spec fn name_entry(e: (String, u32)) -> Seq<u8> {
    seq![encode_utf8(e.0@).len() as u8] + encode_utf8(e.0@) + be32(e.1)
}

/// The bytes of the names and ids of `s`, one after the other.
pub open spec fn encode_names(s: Seq<(String, u32)>) -> Seq<u8>
    decreases s.len(),
{
    if s.len() == 0 {
        Seq::empty()
    } else {
        encode_names(s.drop_last()) + name_entry(s.last())
    }
}

proof fn lemma_encode_names_concat(a: Seq<(String, u32)>, b: Seq<(String, u32)>)
    ensures
        encode_names(a + b) == encode_names(a) + encode_names(b),
    decreases b.len(),
{
    if b.len() == 0 {
        assert(a + b =~= a);
        assert(encode_names(a) + encode_names(b) =~= encode_names(a));
    } else {
        lemma_encode_names_concat(a, b.drop_last());
        assert((a + b).drop_last() =~= a + b.drop_last());
        assert((a + b).last() == b.last());
        assert(encode_names(a) + encode_names(b) =~= encode_names(a) + encode_names(b.drop_last())
            + name_entry(b.last()));
    }
}

/// What reading one name and its id from the front of `b` gives: the length byte, the
/// name, which must be UTF-8, then the id.
pub open spec fn parse_name(b: Seq<u8>) -> Parsed<(Seq<char>, u32)> {
    if b.len() < 1 || b.len() < 1 + b[0] {
        Parsed::Fault
    } else if !valid_utf8(b.subrange(1, 1 + b[0] as int)) {
        Parsed::Invalid
    } else if b.len() < 1 + b[0] + 4 {
        Parsed::Fault
    } else {
        Parsed::Value(
            (decode_utf8(b.subrange(1, 1 + b[0] as int)), be32_at(b.skip(1 + b[0] as int))),
            (1 + b[0] + 4) as nat,
        )
    }
}

/// What reading `n` names and their ids, one after the other, from the front of `b`
/// gives.
pub open spec fn parse_names(b: Seq<u8>, n: nat) -> Parsed<Seq<(Seq<char>, u32)>>
    decreases n,
{
    if n == 0 {
        Parsed::Value(Seq::empty(), 0)
    } else {
        match parse_name(b) {
            Parsed::Value(e, w) => after(seq![e], w, parse_names(b.skip(w as int), (n - 1) as nat)),
            Parsed::Fault => Parsed::Fault,
            Parsed::Invalid => Parsed::Invalid,
        }
    }
}

/// `m` with the pairs of `s` put in one after the other.
pub open spec fn fold_pairs(m: Map<Seq<char>, u32>, s: Seq<(Seq<char>, u32)>) -> Map<Seq<char>, u32>
    decreases s.len(),
{
    if s.len() == 0 {
        m
    } else {
        with_pair(fold_pairs(m, s.drop_last()), s.last().0, s.last().1)
    }
}

proof fn lemma_after_after<V>(a: Seq<V>, w: nat, b: Seq<V>, w2: nat, p: Parsed<Seq<V>>)
    ensures
        after(a, w, after(b, w2, p)) == after(a + b, w + w2, p),
{
    match p {
        Parsed::Value(vs, w3) => {
            assert(a + (b + vs) =~= (a + b) + vs);
        },
        _ => {},
    }
}

impl EncoderMap {
    /// Writes the number of pairs as 32 bits, then each name and its id, in the order in
    /// which the bimap hands them out.
    pub fn encode<E: Encoder>(&self, e: &mut E, _ctx: &mut EncodeContext)
        requires
            old(e).wf(),
            forall|s: Seq<(String, u32)>| #[trigger] lists(s, self@) ==> old(e).written().len() + 4
                + encode_names(s).len() <= usize::MAX,
        ensures
            final(e).wf(),
            exists|s: Seq<(String, u32)>| lists(s, self@) && final(e).written() == old(e).written()
                + be32(self@.len() as u32) + encode_names(s),
    {
        let entries = self.iter();
        let ghost total = encode_names(entries@);
        assert(lists(entries@, self@));
        assert(old(e).written().len() + 4 + total.len() <= usize::MAX);
        e.u32(self.size() as u32);
        let ghost start = e.written();
        let mut i: usize = 0;
        assert(entries@.take(0) =~= Seq::<(String, u32)>::empty());
        while i < entries.len()
            invariant
                e.wf(),
                i <= entries@.len(),
                total == encode_names(entries@),
                start.len() + total.len() <= usize::MAX,
                e.written() == start + encode_names(entries@.take(i as int)),
            decreases entries@.len() - i,
        {
            proof {
                lemma_encode_names_concat(entries@.take(i as int + 1), entries@.skip(i as int + 1));
                assert(entries@.take(i as int + 1) + entries@.skip(i as int + 1) =~= entries@);
                assert(entries@.take(i as int + 1).drop_last() =~= entries@.take(i as int));
            }
            let name = entries[i].0.as_str();
            let size = name.len();
            e.u8(size as u8);
            e.slice(name.as_bytes());
            e.u32(entries[i].1);
            i = i + 1;
            assert(e.written() =~= start + encode_names(entries@.take(i as int)));
        }
        assert(entries@.take(entries@.len() as int) =~= entries@);
    }
}

impl DeepView for EncoderMap {
    type V = Map<Seq<char>, u32>;

    open spec fn deep_view(&self) -> Map<Seq<char>, u32> {
        self@
    }
}

/// The number of pairs as 32 bits, then each name and its id.
impl Decode for EncoderMap {
    open spec fn parse(bytes: Seq<u8>) -> Parsed<Map<Seq<char>, u32>> {
        if bytes.len() < 4 {
            Parsed::Fault
        } else {
            match parse_names(bytes.skip(4), be32_at(bytes) as nat) {
                Parsed::Value(s, w) => Parsed::Value(fold_pairs(Map::empty(), s), w + 4),
                Parsed::Fault => Parsed::Fault,
                Parsed::Invalid => Parsed::Invalid,
            }
        }
    }

    fn decode<D: Decoder>(decoder: &mut D, _ctx: &DecodeContext) -> (r: Result<EncoderMap, String>) {
        let len = match decoder.u32() {
            Ok(n) => n,
            Err(e) => return Err(e),
        };
        let ghost start = decoder.rest();
        let ghost whole = parse_names(start, len as nat);
        assert(old(decoder).rest().skip(4) == start);
        let mut map = EncoderMap::new();
        let ghost mut got: Seq<(Seq<char>, u32)> = Seq::empty();
        let ghost mut used: nat = 0;
        let mut i: u32 = 0;
        assert(after(Seq::<(Seq<char>, u32)>::empty(), 0, whole) == whole) by {
            match whole {
                Parsed::Value(vs, w) => {
                    assert(Seq::<(Seq<char>, u32)>::empty() + vs =~= vs);
                },
                _ => {},
            }
        }
        while i < len
            invariant
                decoder.wf(),
                map.wf(),
                i <= len,
                used <= start.len(),
                decoder.rest() == start.skip(used as int),
                old(decoder).rest().skip(4) == start,
                whole == parse_names(start, len as nat),
                len == be32_at(old(decoder).rest()),
                old(decoder).rest().len() >= 4,
                !(Self::parse(old(decoder).rest()) is Fault),
                whole == after(got, used, parse_names(decoder.rest(), (len - i) as nat)),
                map@ == fold_pairs(Map::empty(), got),
            decreases len - i,
        {
            let ghost before = decoder.rest();
            proof {
                if parse_name(before) is Fault {
                    assert(parse_names(before, (len - i) as nat) is Fault);
                    assert(whole is Fault);
                }
            }
            let size = match decoder.u8() {
                Ok(b) => b as usize,
                Err(e) => return Err(e),
            };
            let slice = match decoder.slice(size) {
                Ok(v) => v,
                Err(e) => return Err(e),
            };
            assert(slice@ =~= before.subrange(1, 1 + before[0] as int));
            let client_id = match string_from_utf8(slice) {
                Ok(s) => s,
                Err(e) => {
                    proof {
                        assert(parse_name(before) is Invalid);
                        assert(parse_names(before, (len - i) as nat) is Invalid);
                        assert(whole is Invalid);
                    }
                    return Err(e);
                },
            };
            assert(decoder.rest() =~= before.skip(1 + before[0] as int));
            let client = match decoder.u32() {
                Ok(v) => v,
                Err(e) => return Err(e),
            };
            proof {
                encode_utf8_decode_utf8(client_id@);
                let w = (1 + before[0] + 4) as nat;
                let e = (client_id@, client);
                assert(parse_name(before) == Parsed::Value(e, w));
                assert(decoder.rest() =~= before.skip(w as int));
                lemma_after_after(got, used, seq![e], w, parse_names(before.skip(w as int), (len - i - 1) as nat));
                assert(start.skip(used as int).skip(w as int) =~= start.skip((used + w) as int));
                assert((got + seq![e]).drop_last() =~= got);
                got = got + seq![e];
                used = used + w;
            }
            map.insert(client_id, client);
            i = i + 1;
        }
        proof {
            assert(parse_names(decoder.rest(), 0) == Parsed::Value(Seq::<(Seq<char>, u32)>::empty(), 0));
            assert(got + Seq::<(Seq<char>, u32)>::empty() =~= got);
            assert(old(decoder).rest().skip(4).skip(used as int) =~= old(decoder).rest().skip((4 + used) as int));
        }
        Ok(map)
    }
}

/// The names of `s` and their ids, as plain values.
pub open spec fn plain(s: Seq<(String, u32)>) -> Seq<(Seq<char>, u32)> {
    Seq::new(s.len(), |i: int| (s[i].0@, s[i].1))
}

/// Whether every name of `s` takes fewer than 256 bytes, so that its length fits in the
/// length byte.
pub open spec fn short_names(s: Seq<(String, u32)>) -> bool {
    forall|i: int| 0 <= i < s.len() ==> #[trigger] encode_utf8(s[i].0@).len() < 256
}

proof fn lemma_read_back_names(s: Seq<(String, u32)>, rest: Seq<u8>)
    requires
        short_names(s),
    ensures
        parse_names(encode_names(s) + rest, s.len()) == Parsed::Value(plain(s), encode_names(s).len()),
    decreases s.len(),
{
    if s.len() == 0 {
        assert(plain(s) =~= Seq::<(Seq<char>, u32)>::empty());
    } else {
        let head = s[0];
        let tail = s.drop_first();
        lemma_encode_names_concat(seq![head], tail);
        assert(seq![head] + tail =~= s);
        assert(seq![head].drop_last() =~= Seq::<(String, u32)>::empty());
        assert(encode_names(Seq::<(String, u32)>::empty()) == Seq::<u8>::empty());
        assert(encode_names(seq![head]) =~= name_entry(head));
        let bytes = encode_utf8(head.0@);
        let n: int = bytes.len() as int;
        assert(n < 256);
        let after_entry = encode_names(tail) + rest;
        let b = encode_names(s) + rest;
        assert(b =~= seq![n as u8] + bytes + be32(head.1) + after_entry);
        assert(b[0] == n);
        assert(b.subrange(1, 1 + n) =~= bytes);
        vstd::utf8::encode_utf8_valid_utf8(head.0@);
        encode_utf8_decode_utf8(head.0@);
        assert(b.skip(1 + n) =~= be32(head.1) + after_entry);
        crate::roundtrip::lemma_be32_at(head.1, after_entry);
        assert(parse_name(b) == Parsed::Value((head.0@, head.1), (1 + n + 4) as nat));
        assert(b.skip(1 + n + 4) =~= after_entry);
        assert forall|i: int| 0 <= i < tail.len() implies #[trigger] encode_utf8(tail[i].0@).len() < 256 by {
            assert(tail[i] == s[i + 1]);
        }
        lemma_read_back_names(tail, rest);
        assert(seq![(head.0@, head.1)] + plain(tail) =~= plain(s));
    }
}

proof fn lemma_fold_lists(s: Seq<(String, u32)>, m: Map<Seq<char>, u32>, i: int)
    requires
        lists(s, m),
        injective(m),
        0 <= i <= s.len(),
    ensures
        fold_pairs(Map::empty(), plain(s.take(i))) == to_map(s.take(i)),
    decreases i,
{
    if i == 0 {
        assert(plain(s.take(0)) =~= Seq::<(Seq<char>, u32)>::empty());
        assert(to_map(s.take(0)) == Map::<Seq<char>, u32>::empty());
    } else {
        lemma_fold_lists(s, m, i - 1);
        lemma_to_map_prefix(s, m, i - 1);
        let p = to_map(s.take(i - 1));
        let e = s[i - 1];
        assert(plain(s.take(i)).drop_last() =~= plain(s.take(i - 1)));
        assert(s.take(i).drop_last() =~= s.take(i - 1));
        assert(pair_in(e, m));
        assert(!has_id(p, e.1)) by {
            if has_id(p, e.1) {
                let kk = choose|kk: Seq<char>| #[trigger] p.contains_key(kk) && p[kk] == e.1;
                assert(m.contains_key(kk) && p[kk] == m[kk]);
                assert(m[kk] == m[e.0@]);
            }
        }
        assert(with_pair(p, e.0@, e.1) =~= p.insert(e.0@, e.1));
    }
}

/// Reading back what `encode` wrote gives the same pairs, whatever bytes follow, when
/// every name takes fewer than 256 bytes and the count fits in 32 bits.
pub proof fn lemma_encoder_map_read_back(m: Map<Seq<char>, u32>, s: Seq<(String, u32)>, rest: Seq<u8>)
    requires
        injective(m),
        lists(s, m),
        short_names(s),
        m.len() <= u32::MAX,
    ensures
        EncoderMap::parse(be32(m.len() as u32) + encode_names(s) + rest) == Parsed::Value(
            m,
            4 + encode_names(s).len(),
        ),
{
    let b = be32(m.len() as u32) + encode_names(s) + rest;
    assert(b =~= be32(m.len() as u32) + (encode_names(s) + rest));
    crate::roundtrip::lemma_be32_at(m.len() as u32, encode_names(s) + rest);
    lemma_read_back_names(s, rest);
    lemma_fold_lists(s, m, s.len() as int);
    assert(s.take(s.len() as int) =~= s);
    lemma_to_map_prefix(s, m, s.len() as int);
    assert(to_map(s) =~= m);
}

impl FieldMap {
    /// Writes the fields as their numbering is written.
    pub fn encode<E: Encoder>(&self, e: &mut E, ctx: &mut EncodeContext)
        requires
            old(e).wf(),
            forall|s: Seq<(String, u32)>| #[trigger] lists(s, self@) ==> old(e).written().len() + 4
                + encode_names(s).len() <= usize::MAX,
        ensures
            final(e).wf(),
            exists|s: Seq<(String, u32)>| lists(s, self@) && final(e).written() == old(e).written()
                + be32(self@.len() as u32) + encode_names(s),
    {
        self.encoder_map().encode(e, ctx);
    }
}

impl DeepView for FieldMap {
    type V = Map<Seq<char>, u32>;

    open spec fn deep_view(&self) -> Map<Seq<char>, u32> {
        self@
    }
}

/// Fields are read as their numbering is.
impl Decode for FieldMap {
    open spec fn parse(bytes: Seq<u8>) -> Parsed<Map<Seq<char>, u32>> {
        EncoderMap::parse(bytes)
    }

    fn decode<D: Decoder>(decoder: &mut D, ctx: &DecodeContext) -> (r: Result<FieldMap, String>) {
        match EncoderMap::decode(decoder, ctx) {
            Ok(map) => Ok(FieldMap::from_encoder_map(map)),
            Err(e) => Err(e),
        }
    }
}

} // verus!
