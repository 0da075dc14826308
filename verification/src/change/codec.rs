use crate::bytes::be32;
use crate::change::{
    below, change_rel, chain, overlaps,
    lemma_listed_prefix, lemma_listed_total, listed, listed_size, ranges_ok, total_changes, ChangeId,
    ChangeMap, ChangeStore, ClientChangeStore,
};
use crate::decoder::{after, be32_at, lemma_after_after, Decode, DecodeContext, Decoder, Parsed};
use crate::encoder::{encode_seq, Encode, EncodeContext, Encoder};
use crate::id::{ClientId, Relation};
use crate::roundtrip::Roundtrip;
use crate::queue_store::put_all;
use vstd::prelude::*;

verus! {

impl DeepView for ClientChangeStore {
    type V = Seq<ChangeId>;

    open spec fn deep_view(&self) -> Seq<ChangeId> {
        self.set@
    }
}

/// A store is written as its changes in order: their number, then each change.
impl Encode for ClientChangeStore {
    open spec fn encoding(&self) -> Seq<u8> {
        self.set.encoding()
    }

    open spec fn encodable(&self) -> bool {
        self.set.encodable()
    }

    fn encode<E: Encoder>(&self, e: &mut E, cx: &mut EncodeContext) {
        self.set.encode(e, cx);
    }
}

/// The store that putting the changes in one after the other, as `insert` does, leaves.
pub open spec fn insert_all(cs: Seq<ChangeId>) -> Seq<ChangeId>
    decreases cs.len(),
{
    if cs.len() == 0 {
        Seq::empty()
    } else {
        ClientChangeStore::inserted(insert_all(cs.drop_last()), cs.last())
    }
}

/// A store is read as a list of changes put in one after the other as `insert` does; a
/// change that ends before it starts is refused.
impl Decode for ClientChangeStore {
    open spec fn parse(bytes: Seq<u8>) -> Parsed<Seq<ChangeId>> {
        match Vec::<ChangeId>::parse(bytes) {
            Parsed::Value(cs, w) => if ranges_ok(cs) {
                Parsed::Value(insert_all(cs), w)
            } else {
                Parsed::Invalid
            },
            Parsed::Fault => Parsed::Fault,
            Parsed::Invalid => Parsed::Invalid,
        }
    }

    fn decode<D: Decoder>(d: &mut D, ctx: &DecodeContext) -> (r: Result<Self, String>) {
        let changes = match Vec::<ChangeId>::decode(d, ctx) {
            Ok(v) => v,
            Err(e) => return Err(e),
        };
        assert(changes.deep_view() =~= changes@);
        let ghost rest = d.rest();
        let mut store = ClientChangeStore::new();
        let mut i: usize = 0;
        assert(changes@.take(0) =~= Seq::<ChangeId>::empty());
        while i < changes.len()
            invariant
                d.wf(),
                d.rest() == rest,
                Vec::<ChangeId>::parse(old(d).rest()) matches Parsed::Value(cs, w) && cs == changes@
                    && w <= old(d).rest().len() && rest == old(d).rest().skip(w as int),
                i <= changes@.len(),
                store.wf(),
                store.set@ == insert_all(changes@.take(i as int)),
                forall|j: int| 0 <= j < i ==> (#[trigger] changes@[j]).start <= changes@[j].end,
            decreases changes@.len() - i,
        {
            let c = changes[i];
            if c.start > c.end {
                return Err("decoder: change ends before it starts".to_owned());
            }
            store.insert(c);
            proof {
                assert(changes@.take(i as int + 1).drop_last() =~= changes@.take(i as int));
                assert(changes@.take(i as int + 1).last() == c);
            }
            i = i + 1;
        }
        assert(changes@.take(changes@.len() as int) =~= changes@);
        Ok(store)
    }
}

impl DeepView for ChangeStore {
    type V = Map<ClientId, Seq<ChangeId>>;

    open spec fn deep_view(&self) -> Map<ClientId, Seq<ChangeId>> {
        self.stores().map_values(|s: ClientChangeStore| s.set@)
    }
}

/// What reading `n` client numbers, each followed by its store, gives.
pub open spec fn parse_stores(bytes: Seq<u8>, n: nat) -> Parsed<Seq<(ClientId, Seq<ChangeId>)>>
    decreases n,
{
    if n == 0 {
        Parsed::Value(Seq::empty(), 0)
    } else if bytes.len() < 4 {
        Parsed::Fault
    } else {
        match ClientChangeStore::parse(bytes.skip(4)) {
            Parsed::Value(q, w) => after(
                seq![(be32_at(bytes), q)],
                4 + w,
                parse_stores(bytes.skip((4 + w) as int), (n - 1) as nat),
            ),
            Parsed::Fault => Parsed::Fault,
            Parsed::Invalid => Parsed::Invalid,
        }
    }
}

/// The stores are read as a number, then that many client numbers each followed by a
/// store; a client read again keeps the store read last.
impl Decode for ChangeStore {
    open spec fn parse(bytes: Seq<u8>) -> Parsed<Map<ClientId, Seq<ChangeId>>> {
        if bytes.len() < 4 {
            Parsed::Fault
        } else {
            match parse_stores(bytes.skip(4), be32_at(bytes) as nat) {
                Parsed::Value(es, w) => Parsed::Value(put_all(es), 4 + w),
                Parsed::Fault => Parsed::Fault,
                Parsed::Invalid => Parsed::Invalid,
            }
        }
    }

    fn decode<D: Decoder>(d: &mut D, ctx: &DecodeContext) -> (r: Result<Self, String>) {
        let len = match d.u32() {
            Ok(n) => n,
            Err(e) => return Err(e),
        };
        let ghost start = d.rest();
        let ghost whole = parse_stores(start, len as nat);
        proof {
            assert(after(Seq::<(ClientId, Seq<ChangeId>)>::empty(), 0, whole) == whole) by {
                match whole {
                    Parsed::Value(es, w) => {
                        assert(Seq::<(ClientId, Seq<ChangeId>)>::empty() + es =~= es);
                    },
                    _ => {},
                }
            }
        }
        let mut map = ChangeMap::new();
        let ghost mut got: Seq<(ClientId, Seq<ChangeId>)> = Seq::empty();
        let ghost mut used: nat = 0;
        let mut i: u32 = 0;
        proof {
            assert(crate::change::client_stores(map).map_values(|s: ClientChangeStore| s.set@) =~= put_all(got));
        }
        while i < len
            invariant
                d.wf(),
                i <= len,
                used <= start.len(),
                d.rest() == start.skip(used as int),
                whole == parse_stores(start, len as nat),
                !(whole is Fault),
                Self::parse(old(d).rest()) == match whole {
                    Parsed::Value(es, w) => Parsed::Value(put_all(es), 4 + w),
                    Parsed::Fault => Parsed::Fault,
                    Parsed::Invalid => Parsed::Invalid,
                },
                old(d).rest().skip(4) == start,
                whole == after(got, used, parse_stores(d.rest(), (len - i) as nat)),
                crate::change::client_stores(map).map_values(|s: ClientChangeStore| s.set@) == put_all(got),
            decreases len - i,
        {
            let ghost before = d.rest();
            proof {
                assert(before.len() >= 4 && !(ClientChangeStore::parse(before.skip(4)) is Fault)) by {
                    if before.len() < 4 || ClientChangeStore::parse(before.skip(4)) is Fault {
                        assert(parse_stores(before, (len - i) as nat) is Fault);
                    }
                }
            }
            let client = match d.u32() {
                Ok(c) => c,
                Err(e) => return Err(e),
            };
            match ClientChangeStore::decode(d, ctx) {
                Ok(store) => {
                    let ghost q = ClientChangeStore::parse(before.skip(4))->Value_0;
                    let ghost w = ClientChangeStore::parse(before.skip(4))->Value_1;
                    let ghost old_got = got;
                    map.insert(client, store);
                    proof {
                        assert(parse_stores(before, (len - i) as nat) == after(
                            seq![(client, q)],
                            4 + w,
                            parse_stores(before.skip((4 + w) as int), (len - i - 1) as nat),
                        ));
                        lemma_after_after(
                            old_got,
                            used,
                            seq![(client, q)],
                            4 + w,
                            parse_stores(before.skip((4 + w) as int), (len - i - 1) as nat),
                        );
                        assert(before.skip(4).skip(w as int) =~= before.skip((4 + w) as int));
                        assert(start.skip(used as int).skip((4 + w) as int) =~= start.skip(
                            (used + 4 + w) as int,
                        ));
                        got = old_got.push((client, q));
                        assert(old_got + seq![(client, q)] =~= got);
                        assert(got.drop_last() =~= old_got);
                        assert(crate::change::client_stores(map).map_values(
                            |s: ClientChangeStore| s.set@,
                        ) =~= put_all(got));
                        used = used + 4 + w;
                    }
                },
                Err(e) => {
                    proof {
                        assert(ClientChangeStore::parse(before.skip(4)) is Invalid);
                        assert(parse_stores(before, (len - i) as nat) is Invalid);
                        assert(whole is Invalid);
                    }
                    return Err(e);
                },
            }
            i = i + 1;
        }
        proof {
            assert(parse_stores(d.rest(), 0) == Parsed::Value(
                Seq::<(ClientId, Seq<ChangeId>)>::empty(),
                0,
            ));
            assert(got + Seq::<(ClientId, Seq<ChangeId>)>::empty() =~= got);
            assert(old(d).rest().skip(4).skip(used as int) =~= old(d).rest().skip(
                (4 + used) as int,
            ));
        }
        Ok(ChangeStore { map })
    }
}

/// Each listed client's number followed by its store.
pub open spec fn stores_encoding(es: Seq<(ClientId, &ClientChangeStore)>) -> Seq<u8>
    decreases es.len(),
{
    if es.len() == 0 {
        Seq::empty()
    } else {
        stores_encoding(es.drop_last()) + be32(es.last().0) + es.last().1.encoding()
    }
}

/// The number of bytes that writing the stores takes.
pub open spec fn stores_len(m: Map<ClientId, ClientChangeStore>) -> int {
    4 + 8 * m.dom().len() + 12 * total_changes(m)
}

/// Each change takes twelve bytes.
pub proof fn lemma_changes_len(s: Seq<ChangeId>)
    ensures
        encode_seq(s).len() == 12 * s.len(),
    decreases s.len(),
{
    if s.len() > 0 {
        lemma_changes_len(s.drop_last());
    }
}

/// Each listed client takes eight bytes besides twelve for each of its changes.
pub proof fn lemma_stores_encoding_len(es: Seq<(ClientId, &ClientChangeStore)>)
    ensures
        stores_encoding(es).len() == 8 * es.len() + 12 * listed_size(es),
    decreases es.len(),
{
    if es.len() > 0 {
        lemma_stores_encoding_len(es.drop_last());
        lemma_changes_len(es.last().1.set@);
    }
}

impl ChangeStore {
    /// Writes the number of changes of all stores, then each client's number followed by its
    /// store, clients in the order the map walks them.
    pub fn encode<E: Encoder>(&self, e: &mut E, cx: &mut EncodeContext)
        requires
            old(e).wf(),
            self.wf(),
            old(e).written().len() + stores_len(self.stores()) <= usize::MAX,
        ensures
            final(e).wf(),
            exists|es: Seq<(ClientId, &ClientChangeStore)>|
                #![trigger listed(es, self.stores())]
                listed(es, self.stores()) && final(e).written() == old(e).written() + be32(
                    #[verifier::truncate] (total_changes(self.stores()) as u32),
                ) + stores_encoding(es),
    {
        let es = self.map.stores();
        proof {
            lemma_listed_total(es@, self.stores());
            lemma_stores_encoding_len(es@);
        }
        let n = self.size();
        #[verifier::truncate]
        let count = n as u32;
        e.u32(count);
        let ghost start = e.written();
        let mut i: usize = 0;
        assert(es@.take(0) =~= Seq::<(ClientId, &ClientChangeStore)>::empty());
        while i < es.len()
            invariant
                e.wf(),
                i <= es@.len(),
                listed(es@, self.stores()),
                es@.len() == self.stores().dom().len(),
                listed_size(es@) == total_changes(self.stores()),
                stores_encoding(es@).len() == 8 * es@.len() + 12 * listed_size(es@),
                start.len() + stores_encoding(es@).len() <= usize::MAX,
                e.written() == start + stores_encoding(es@.take(i as int)),
            decreases es@.len() - i,
        {
            proof {
                lemma_listed_prefix(es@, i as int + 1);
                lemma_stores_encoding_len(es@.take(i as int + 1));
                assert(es@.take(i as int + 1).drop_last() =~= es@.take(i as int));
                assert(es@.take(i as int + 1).last() == es@[i as int]);
            }
            e.u32(es[i].0);
            es[i].1.encode(e, cx);
            proof {
                assert(e.written() =~= start + stores_encoding(es@.take(i as int + 1)));
            }
            i = i + 1;
        }
        assert(es@.take(es@.len() as int) =~= es@);
    }
}

/// Putting in the changes of an ordered run one after the other gives the run back.
pub proof fn lemma_insert_all_chain(s: Seq<ChangeId>)
    requires
        chain(s),
        ranges_ok(s),
    ensures
        insert_all(s) == s,
    decreases s.len(),
{
    if s.len() > 0 {
        let t = s.drop_last();
        let x = s.last();
        assert(chain(t)) by {
            assert forall|i: int, j: int| 0 <= i < j < t.len() implies change_rel(
                #[trigger] t[i],
                #[trigger] t[j],
            ) == Relation::Less by {
                assert(t[i] == s[i] && t[j] == s[j]);
            }
        }
        assert(ranges_ok(t)) by {
            assert forall|i: int| 0 <= i < t.len() implies (#[trigger] t[i]).start <= t[i].end by {
                assert(t[i] == s[i]);
            }
        }
        lemma_insert_all_chain(t);
        assert forall|i: int| 0 <= i < t.len() implies change_rel(#[trigger] t[i], x) == Relation::Less by {
            assert(t[i] == s[i] && x == s[s.len() - 1]);
        }
        assert(!overlaps(t, x));
        if t.len() > 0 {
            assert(change_rel(t.last(), x) == Relation::Less);
        }
        assert(below(t, x) == t.len());
        assert(t.insert(t.len() as int, x) =~= s);
    }
}

/// A well-formed store reads back when it holds at most `u32::MAX` changes.
impl Roundtrip for ClientChangeStore {
    open spec fn reads_back(&self) -> bool {
        &&& self.wf()
        &&& self.set.reads_back()
    }

    proof fn lemma_roundtrip(&self, rest: Seq<u8>) {
        self.set.lemma_roundtrip(rest);
        assert(self.set.deep_view() =~= self.set@);
        lemma_insert_all_chain(self.set@);
    }
}

} // verus!
