use crate::bytes::be32;
use crate::decoder::{after, be32_at, lemma_after_after, Decode, DecodeContext, Decoder, Parsed};
use crate::encoder::{Encode, EncodeContext, Encoder};
use crate::id::{ClientId, Id, WithId};
use std::collections::BTreeMap;
use vstd::prelude::*;
use vstd::std_specs::btree::increasing_seq;

verus! {

broadcast use {vstd::std_specs::btree::group_btree_axioms, vstd::laws_cmp::group_laws_cmp};

/// Entries kept in arrival order with a read position: `pop_front` reads forward without
/// removing, `pop` removes from the back.
#[derive(Debug, Default, Clone, PartialEq, Eq)]
pub struct QueueStore<T> {
    pub vec: Vec<T>,
    pub pos: usize,
}

impl<T> QueueStore<T> {
    pub fn is_empty(&self) -> (r: bool)
        ensures
            r == (self.vec@.len() == 0),
    {
        self.vec.len() == 0
    }

    pub fn new() -> (r: Self)
        ensures
            r.vec@.len() == 0,
            r.pos == 0,
    {
        Self { vec: Vec::new(), pos: 0 }
    }

    /// Adds an entry at the back.
    pub fn append(&mut self, entry: T)
        ensures
            final(self).vec@ == old(self).vec@.push(entry),
            final(self).pos == old(self).pos,
    {
        self.vec.push(entry);
    }

    /// Reads the entry at the read position and moves past it.
    pub fn pop_front(&mut self) -> (r: Option<&T>)
        ensures
            final(self).vec@ == old(self).vec@,
            old(self).pos < old(self).vec@.len() ==> r == Some(&old(self).vec@[old(self).pos as int])
                && final(self).pos == old(self).pos + 1,
            old(self).pos >= old(self).vec@.len() ==> r is None && final(self).pos == old(self).pos,
    {
        if self.pos < self.vec.len() {
            let p = self.pos;
            self.pos = self.pos + 1;
            Some(&self.vec[p])
        } else {
            None
        }
    }

    /// Removes and returns the last entry.
    pub fn pop(&mut self) -> (r: Option<T>)
        ensures
            final(self).pos == old(self).pos,
            old(self).vec@.len() == 0 ==> r is None && final(self).vec@ == old(self).vec@,
            old(self).vec@.len() > 0 ==> r == Some(old(self).vec@.last()) && final(self).vec@
                == old(self).vec@.drop_last(),
    {
        self.vec.pop()
    }

    /// Moves the read position back to the start.
    pub fn reset(&mut self)
        ensures
            final(self).vec@ == old(self).vec@,
            final(self).pos == 0,
    {
        self.pos = 0;
    }

    /// Removes every entry.
    pub fn clear(&mut self)
        ensures
            final(self).vec@.len() == 0,
            final(self).pos == 0,
    {
        self.vec.clear();
        self.pos = 0;
    }

    /// The entries in arrival order.
    pub fn iter(&self) -> (r: &[T])
        ensures
            r@ == self.vec@,
    {
        self.vec.as_slice()
    }
}


/// The entries of each client, each client with its own queue, clients in increasing order.
#[derive(Debug, Default, Clone)]
pub struct ClientQueueStore<T> {
    pub items: BTreeMap<ClientId, QueueStore<T>>,
}

/// The queue after every entry is put in the reverse order; the read position stays.
pub open spec fn reversed<T>(before: QueueStore<T>, after: QueueStore<T>) -> bool {
    after.vec@ == before.vec@.reverse() && after.pos == before.pos
}

impl<T: WithId> ClientQueueStore<T> {
    pub fn new() -> (r: Self)
        ensures
            r.items@ == Map::<ClientId, QueueStore<T>>::empty(),
    {
        Self { items: BTreeMap::new() }
    }

    /// The number of entries of the client.
    pub fn size(&self, client_id: ClientId) -> (r: usize)
        ensures
            r == (if self.items@.contains_key(client_id) {
                self.items@[client_id].vec@.len()
            } else {
                0
            }),
    {
        match self.items.get(&client_id) {
            Some(store) => store.vec.len(),
            None => 0,
        }
    }

    /// Puts every client's entries in the reverse order.
    pub fn reverse(&mut self)
        ensures
            final(self).items@.dom() == old(self).items@.dom(),
            forall|c: ClientId|
                #[trigger] old(self).items@.contains_key(c) ==> reversed(
                    old(self).items@[c],
                    final(self).items@[c],
                ),
    {
        let mut clients: Vec<ClientId> = Vec::new();
        let ghost m0 = self.items@;
        for c in it: self.items.keys()
            invariant
                self.items@ == m0,
                it.seq().unref().to_set() == m0.dom(),
                it.seq().no_duplicates(),
                clients@.len() == it.index(),
                forall|j: int| 0 <= j < clients@.len() ==> clients@[j] == *it.seq()[j],
                forall|j: int| 0 <= j < clients@.len() ==> m0.contains_key(#[trigger] clients@[j]),
                clients@.no_duplicates(),
                forall|k: ClientId|
                    #[trigger] m0.contains_key(k) ==> clients@.contains(k) || exists|j: int|
                        it.index() <= j < it.seq().len() && *it.seq()[j] == k,
        {
            let ghost k = *c;
            proof {
                assert(it.seq()[it.index() as int] == c);
                assert(it.seq().unref()[it.index() as int] == k);
                assert(it.seq().unref().contains(k));
                assert(m0.contains_key(k));
                assert(!clients@.contains(k)) by {
                    if clients@.contains(k) {
                        let j = choose|j: int| 0 <= j < clients@.len() && clients@[j] == k;
                        assert(it.seq()[j] == it.seq()[it.index() as int]);
                    }
                }
            }
            let ghost before = clients@;
            clients.push(*c);
            proof {
                assert forall|v: ClientId| #[trigger] m0.contains_key(v) implies clients@.contains(v)
                    || exists|j: int| it.index() + 1 <= j < it.seq().len() && *it.seq()[j] == v by {
                    if !before.contains(v) {
                        let j = choose|j: int| it.index() <= j < it.seq().len() && *it.seq()[j] == v;
                        if j == it.index() {
                            assert(clients@[before.len() as int] == v);
                        } else {
                            assert(it.index() + 1 <= j < it.seq().len() && *it.seq()[j] == v);
                        }
                    } else {
                        let j = choose|j: int| 0 <= j < before.len() && before[j] == v;
                        assert(clients@[j] == v);
                    }
                }
            }
        }
        let ghost ks = clients@;
        proof {
            assert forall|k: ClientId| ks.to_set().contains(k) <==> m0.dom().contains(k) by {
                if ks.to_set().contains(k) {
                    let j = choose|j: int| 0 <= j < ks.len() && ks[j] == k;
                    assert(m0.contains_key(ks[j]));
                }
                if m0.dom().contains(k) {
                    assert(ks.contains(k));
                }
            }
            assert(ks.to_set() =~= m0.dom());
        }
        let mut i: usize = 0;
        while i < clients.len()
            invariant
                clients@ == ks,
                ks.to_set() == m0.dom(),
                ks.no_duplicates(),
                i <= ks.len(),
                self.items@.dom() == m0.dom(),
                forall|c: ClientId|
                    #[trigger] m0.contains_key(c) ==> if ks.take(i as int).contains(c) {
                        reversed(m0[c], self.items@[c])
                    } else {
                        self.items@[c] == m0[c]
                    },
            decreases ks.len() - i,
        {
            let c = clients[i];
            proof {
                assert(ks.contains(c));
                assert(m0.dom().contains(c));
                assert(!ks.take(i as int).contains(c)) by {
                    if ks.take(i as int).contains(c) {
                        let j = choose|j: int| 0 <= j < i && #[trigger] ks.take(i as int)[j] == c;
                        assert(ks[j] == ks[i as int]);
                    }
                }
            }
            let ghost before = self.items@;
            match self.items.remove(&c) {
                Some(mut store) => {
                    let ghost s0 = store;
                    let mut flipped: Vec<T> = Vec::new();
                    while store.vec.len() > 0
                        invariant
                            store.pos == s0.pos,
                            flipped@ + store.vec@.reverse() == s0.vec@.reverse(),
                        decreases store.vec@.len(),
                    {
                        let ghost v = store.vec@;
                        match store.vec.pop() {
                            Some(x) => {
                                flipped.push(x);
                                proof {
                                    assert(v.reverse() =~= seq![x] + store.vec@.reverse());
                                    assert(flipped@ + store.vec@.reverse() =~= s0.vec@.reverse());
                                }
                            },
                            None => {},
                        }
                    }
                    proof {
                        assert(store.vec@.reverse() =~= Seq::<T>::empty());
                        assert(flipped@ =~= s0.vec@.reverse());
                    }
                    store.vec = flipped;
                    self.items.insert(c, store);
                },
                None => {},
            }
            proof {
                assert forall|k: ClientId| #[trigger] m0.contains_key(k) implies if ks.take(i + 1).contains(
                    k,
                ) {
                    reversed(m0[k], self.items@[k])
                } else {
                    self.items@[k] == m0[k]
                } by {
                    if k != c {
                        assert(ks.take(i + 1).contains(k) == ks.take(i as int).contains(k)) by {
                            if ks.take(i + 1).contains(k) {
                                let j = choose|j: int| 0 <= j < i + 1 && #[trigger] ks.take(i + 1)[j] == k;
                                assert(ks.take(i as int)[j] == k);
                            }
                            if ks.take(i as int).contains(k) {
                                let j = choose|j: int| 0 <= j < i && #[trigger] ks.take(i as int)[j] == k;
                                assert(ks.take(i + 1)[j] == k);
                            }
                        }
                    } else {
                        assert(ks.take(i + 1)[i as int] == c);
                    }
                }
                assert(self.items@.dom() =~= m0.dom());
            }
            i = i + 1;
        }
        proof {
            assert(ks.take(ks.len() as int) =~= ks);
        }
    }
}


/// The entries and read position of the client's queue; none and zero without a queue.
pub open spec fn queue_of<T>(m: Map<ClientId, QueueStore<T>>, c: ClientId) -> (Seq<T>, int) {
    if m.contains_key(c) {
        (m[c].vec@, m[c].pos as int)
    } else {
        (Seq::empty(), 0)
    }
}

impl<T: WithId> ClientQueueStore<T> {
    /// The client's queue, made empty when the client has none.
    fn take_store(&mut self, client_id: &ClientId) -> (r: QueueStore<T>)
        ensures
            final(self).items@ == old(self).items@.remove(*client_id),
            (r.vec@, r.pos as int) == queue_of(old(self).items@, *client_id),
    {
        match self.items.remove(client_id) {
            Some(store) => store,
            None => QueueStore::new(),
        }
    }

    /// Removes and returns the client's last entry; a client without a queue gets an
    /// empty one.
    pub fn take_first(&mut self, client_id: &ClientId) -> (r: Option<T>)
        ensures
            final(self).items@ == old(self).items@.insert(*client_id, final(self).items@[*client_id]),
            ({
                let (v, p) = queue_of(old(self).items@, *client_id);
                let t = final(self).items@[*client_id];
                &&& t.pos == p
                &&& v.len() == 0 ==> r is None && t.vec@ == v
                &&& v.len() > 0 ==> r == Some(v.last()) && t.vec@ == v.drop_last()
            }),
    {
        let mut store = self.take_store(client_id);
        let r = store.pop();
        self.items.insert(*client_id, store);
        proof {
            assert(self.items@ =~= old(self).items@.insert(*client_id, self.items@[*client_id]));
        }
        r
    }

    /// Appends the entry to the queue of its client.
    pub fn insert(&mut self, entry: T)
        ensures
            final(self).items@ == old(self).items@.insert(
                entry.spec_id().client,
                final(self).items@[entry.spec_id().client],
            ),
            ({
                let (v, p) = queue_of(old(self).items@, entry.spec_id().client);
                let t = final(self).items@[entry.spec_id().client];
                t.vec@ == v.push(entry) && t.pos == p
            }),
    {
        let client_id = entry.id().client;
        let mut store = self.take_store(&client_id);
        store.append(entry);
        self.items.insert(client_id, store);
        proof {
            assert(self.items@ =~= old(self).items@.insert(client_id, self.items@[client_id]));
        }
    }

    /// Reads the client's entry at its read position and moves past it; a client without
    /// a queue gets an empty one.
    pub fn pop(&mut self, client_id: &ClientId) -> (r: Option<&T>)
        ensures
            final(self).items@ == old(self).items@.insert(*client_id, final(self).items@[*client_id]),
            ({
                let (v, p) = queue_of(old(self).items@, *client_id);
                let t = final(self).items@[*client_id];
                &&& t.vec@ == v
                &&& p < v.len() ==> r == Some(&v[p]) && t.pos == p + 1
                &&& p >= v.len() ==> r is None && t.pos == p
            }),
    {
        let mut store = self.take_store(client_id);
        let p = store.pos;
        let read = p < store.vec.len();
        if read {
            store.pos = p + 1;
        }
        self.items.insert(*client_id, store);
        proof {
            assert(self.items@ =~= old(self).items@.insert(*client_id, self.items@[*client_id]));
        }
        if read {
            match self.items.get(client_id) {
                Some(s) => Some(&s.vec[p]),
                None => None,
            }
        } else {
            None
        }
    }

    /// Drops the queue of the id's client.
    pub fn remove(&mut self, id: &Id)
        ensures
            final(self).items@ == old(self).items@.remove(id.client),
    {
        self.items.remove(&id.client);
    }

    /// Drops every queue.
    pub fn clear(&mut self)
        ensures
            final(self).items@ == Map::<ClientId, QueueStore<T>>::empty(),
    {
        self.items.clear();
    }
}


/// A queue is written as its entries.
impl<T: Encode> Encode for QueueStore<T> {
    open spec fn encoding(&self) -> Seq<u8> {
        self.vec.encoding()
    }

    open spec fn encodable(&self) -> bool {
        self.vec.encodable()
    }

    fn encode<E: Encoder>(&self, e: &mut E, cx: &mut EncodeContext) {
        self.vec.encode(e, cx);
    }
}

/// The clients are in strictly increasing order.
pub open spec fn ascending(s: Seq<ClientId>) -> bool {
    forall|i: int, j: int| 0 <= i < j < s.len() ==> s[i] < s[j]
}

/// The clients of the map in increasing order.
pub open spec fn ordered_clients<T>(m: Map<ClientId, QueueStore<T>>) -> Seq<ClientId> {
    choose|s: Seq<ClientId>| ascending(s) && s.to_set() == m.dom()
}

/// Each listed client's number followed by its queue.
pub open spec fn pairs_encoding<T: Encode>(m: Map<ClientId, QueueStore<T>>, ks: Seq<ClientId>) -> Seq<
    u8,
>
    decreases ks.len(),
{
    if ks.len() == 0 {
        Seq::empty()
    } else {
        pairs_encoding(m, ks.drop_last()) + be32(ks.last()) + m[ks.last()].encoding()
    }
}

/// Keys that a sorted walk gives are in increasing order.
proof fn lemma_ascending_walk(s: Seq<ClientId>)
    requires
        increasing_seq(s),
    ensures
        ascending(s),
{
    assert forall|i: int, j: int| 0 <= i < j < s.len() implies s[i] < s[j] by {
        assert(vstd::std_specs::cmp::OrdSpec::cmp_spec(&s[i], &s[j]) is Less);
    }
}

/// An increasing list of as many clients as a finite set, all in it, lists the set.
pub proof fn lemma_walk_covers(all: Seq<ClientId>, d: Set<ClientId>)
    requires
        ascending(all),
        d.finite(),
        all.len() == d.len(),
        forall|i: int| 0 <= i < all.len() ==> d.contains(all[i]),
    ensures
        all.to_set() == d,
{
    assert forall|i: int, j: int| 0 <= i < all.len() && 0 <= j < all.len() && i != j implies all[i]
        != all[j] by {
        if i < j {
            assert(all[i] < all[j]);
        } else {
            assert(all[j] < all[i]);
        }
    }
    assert(all.no_duplicates());
    all.unique_seq_to_set();
    assert(all.to_set().subset_of(d));
    vstd::seq_lib::seq_to_set_is_finite(all);
    vstd::set_lib::lemma_subset_equality(all.to_set(), d);
}

/// Only one increasing order lists a set of clients.
pub proof fn lemma_ascending_unique(a: Seq<ClientId>, b: Seq<ClientId>)
    requires
        ascending(a),
        ascending(b),
        a.to_set() == b.to_set(),
    ensures
        a == b,
    decreases a.len(),
{
    if a.len() == 0 {
        if b.len() > 0 {
            assert(a.to_set().contains(b[0]));
        }
        assert(a =~= b);
    } else {
        assert(b.to_set().contains(a.last()));
        assert(b.len() > 0);
        assert(a.to_set().contains(b.last()));
        let x = a.last();
        let ia = choose|i: int| 0 <= i < a.len() && a[i] == b.last();
        let ib = choose|i: int| 0 <= i < b.len() && b[i] == x;
        assert(b[ib] <= b.last());
        assert(a[ia] <= a.last());
        assert(x == b.last());
        let a2 = a.drop_last();
        let b2 = b.drop_last();
        assert forall|v: ClientId| a2.to_set().contains(v) <==> b2.to_set().contains(v) by {
            if a2.to_set().contains(v) {
                let i = choose|i: int| 0 <= i < a2.len() && a2[i] == v;
                assert(a[i] == v && v < x);
                assert(b.to_set().contains(v));
                let j = choose|j: int| 0 <= j < b.len() && b[j] == v;
                assert(j != b.len() - 1);
                assert(b2[j] == v);
            }
            if b2.to_set().contains(v) {
                let i = choose|i: int| 0 <= i < b2.len() && b2[i] == v;
                assert(b[i] == v && v < x);
                assert(a.to_set().contains(v));
                let j = choose|j: int| 0 <= j < a.len() && a[j] == v;
                assert(j != a.len() - 1);
                assert(a2[j] == v);
            }
        }
        assert(a2.to_set() =~= b2.to_set());
        assert(ascending(a2) && ascending(b2));
        lemma_ascending_unique(a2, b2);
        assert(a =~= a2.push(x));
        assert(b =~= b2.push(x));
    }
}

/// The written pairs of a prefix are a prefix of the written pairs.
pub proof fn lemma_pairs_prefix<T: Encode>(m: Map<ClientId, QueueStore<T>>, ks: Seq<ClientId>, k: int)
    requires
        0 <= k <= ks.len(),
    ensures
        pairs_encoding(m, ks.take(k)).len() <= pairs_encoding(m, ks).len(),
    decreases ks.len() - k,
{
    if k < ks.len() {
        lemma_pairs_prefix(m, ks, k + 1);
        assert(ks.take(k + 1).drop_last() =~= ks.take(k));
    } else {
        assert(ks.take(k) =~= ks);
    }
}

/// The queues are written as their number, then each client's number and queue, clients
/// in increasing order.
impl<T: Encode> Encode for ClientQueueStore<T> {
    open spec fn encoding(&self) -> Seq<u8> {
        be32(self.items@.dom().len() as u32) + pairs_encoding(
            self.items@,
            ordered_clients(self.items@),
        )
    }

    open spec fn encodable(&self) -> bool {
        forall|c: ClientId| #[trigger] self.items@.contains_key(c) ==> self.items@[c].encodable()
    }

    fn encode<E: Encoder>(&self, e: &mut E, cx: &mut EncodeContext) {
        let ghost m = self.items@;
        #[verifier::truncate]
        let count = self.items.len() as u32;
        e.u32(count);
        let ghost start = e.written();
        let ghost mut ks: Seq<ClientId> = Seq::empty();
        for (client, store) in it: self.items.iter()
            invariant
                e.wf(),
                self.items@ == m,
                self.encodable(),
                it.seq().len() == m.dom().len(),
                forall|i: int|
                    0 <= i < it.seq().len() ==> m.contains_key(*it.seq()[i].0) && m[*it.seq()[i].0]
                        == *it.seq()[i].1,
                increasing_seq(it.seq().map_values(|kv: (&ClientId, &QueueStore<T>)| *kv.0)),
                ks == it.seq().map_values(|kv: (&ClientId, &QueueStore<T>)| *kv.0).take(
                    it.index() as int,
                ),
                ks.len() == it.index(),
                ascending(ks),
                forall|i: int| 0 <= i < ks.len() ==> m.dom().contains(ks[i]),
                start == old(e).written() + be32(#[verifier::truncate] (m.dom().len() as u32)),
                old(e).written().len() + self.encoding().len() <= usize::MAX,
                e.written() == start + pairs_encoding(m, ks),
        {
            let ghost all = it.seq().map_values(|kv: (&ClientId, &QueueStore<T>)| *kv.0);
            proof {
                lemma_ascending_walk(all);
                assert forall|i: int| 0 <= i < all.len() implies m.dom().contains(all[i]) by {
                    assert(m.contains_key(*it.seq()[i].0));
                }
                lemma_walk_covers(all, m.dom());
                assert(exists|o: Seq<ClientId>| ascending(o) && o.to_set() == m.dom());
                lemma_ascending_unique(all, ordered_clients(m));
                lemma_pairs_prefix(m, all, it.index() + 1);
                assert(all.take(it.index() + 1).drop_last() =~= ks);
                assert(all.take(it.index() + 1).last() == *client);
                assert(m[*client] == *store);
                assert(m[*client].encodable());
            }
            e.u32(*client);
            store.encode(e, cx);
            proof {
                ks = ks.push(*client);
                assert(ks =~= all.take(it.index() + 1));
                assert(m.dom().contains(*client));
                assert(e.written() =~= start + pairs_encoding(m, ks));
            }
        }
        proof {
            lemma_walk_covers(ks, m.dom());
            assert(exists|o: Seq<ClientId>| ascending(o) && o.to_set() == m.dom());
            lemma_ascending_unique(ks, ordered_clients(m));
        }
    }
}


impl<T: DeepView> DeepView for QueueStore<T> {
    type V = (Seq<T::V>, usize);

    open spec fn deep_view(&self) -> (Seq<T::V>, usize) {
        (self.vec.deep_view(), self.pos)
    }
}

/// A queue is read as its entries, with the read position at the start.
impl<T: Decode> Decode for QueueStore<T> {
    open spec fn parse(bytes: Seq<u8>) -> Parsed<(Seq<T::V>, usize)> {
        match Vec::<T>::parse(bytes) {
            Parsed::Value(v, w) => Parsed::Value((v, 0usize), w),
            Parsed::Fault => Parsed::Fault,
            Parsed::Invalid => Parsed::Invalid,
        }
    }

    fn decode<D: Decoder>(d: &mut D, ctx: &DecodeContext) -> (r: Result<Self, String>) {
        match Vec::<T>::decode(d, ctx) {
            Ok(vec) => Ok(QueueStore { vec, pos: 0 }),
            Err(e) => Err(e),
        }
    }
}

impl<T: DeepView> DeepView for ClientQueueStore<T> {
    type V = Map<ClientId, (Seq<T::V>, usize)>;

    open spec fn deep_view(&self) -> Map<ClientId, (Seq<T::V>, usize)> {
        self.items@.map_values(|q: QueueStore<T>| q.deep_view())
    }
}

/// What reading `n` client numbers, each followed by its queue, gives.
pub open spec fn parse_entries<T: Decode>(bytes: Seq<u8>, n: nat) -> Parsed<
    Seq<(ClientId, (Seq<T::V>, usize))>,
>
    decreases n,
{
    if n == 0 {
        Parsed::Value(Seq::empty(), 0)
    } else if bytes.len() < 4 {
        Parsed::Fault
    } else {
        match QueueStore::<T>::parse(bytes.skip(4)) {
            Parsed::Value(q, w) => after(
                seq![(be32_at(bytes), q)],
                4 + w,
                parse_entries::<T>(bytes.skip((4 + w) as int), (n - 1) as nat),
            ),
            Parsed::Fault => Parsed::Fault,
            Parsed::Invalid => Parsed::Invalid,
        }
    }
}

/// The map that the entries give when put in one after the other.
pub open spec fn put_all<V>(es: Seq<(ClientId, V)>) -> Map<ClientId, V>
    decreases es.len(),
{
    if es.len() == 0 {
        Map::empty()
    } else {
        put_all(es.drop_last()).insert(es.last().0, es.last().1)
    }
}

/// The queues are read as their number, then each client's number and queue; a client
/// read again keeps the queue read last.
impl<T: Decode> Decode for ClientQueueStore<T> {
    open spec fn parse(bytes: Seq<u8>) -> Parsed<Map<ClientId, (Seq<T::V>, usize)>> {
        if bytes.len() < 4 {
            Parsed::Fault
        } else {
            match parse_entries::<T>(bytes.skip(4), be32_at(bytes) as nat) {
                Parsed::Value(es, w) => Parsed::Value(put_all(es), 4 + w),
                Parsed::Fault => Parsed::Fault,
                Parsed::Invalid => Parsed::Invalid,
            }
        }
    }

    fn decode<D: Decoder>(d: &mut D, ctx: &DecodeContext) -> (r: Result<Self, String>) {
        let len = match d.u32() {
            Ok(n) => n,
            Err(e) => return Err(e),
        };
        let ghost start = d.rest();
        let ghost whole = parse_entries::<T>(start, len as nat);
        proof {
            assert(after(Seq::<(ClientId, (Seq<T::V>, usize))>::empty(), 0, whole) == whole) by {
                match whole {
                    Parsed::Value(es, w) => {
                        assert(Seq::<(ClientId, (Seq<T::V>, usize))>::empty() + es =~= es);
                    },
                    _ => {},
                }
            }
        }
        let mut items: BTreeMap<ClientId, QueueStore<T>> = BTreeMap::new();
        let ghost mut got: Seq<(ClientId, (Seq<T::V>, usize))> = Seq::empty();
        let ghost mut used: nat = 0;
        let mut i: u32 = 0;
        while i < len
            invariant
                d.wf(),
                i <= len,
                used <= start.len(),
                d.rest() == start.skip(used as int),
                whole == parse_entries::<T>(start, len as nat),
                !(whole is Fault),
                Self::parse(old(d).rest()) == match whole {
                    Parsed::Value(es, w) => Parsed::Value(put_all(es), 4 + w),
                    Parsed::Fault => Parsed::Fault,
                    Parsed::Invalid => Parsed::Invalid,
                },
                old(d).rest().skip(4) == start,
                whole == after(got, used, parse_entries::<T>(d.rest(), (len - i) as nat)),
                items@.map_values(|q: QueueStore<T>| q.deep_view()) == put_all(got),
            decreases len - i,
        {
            let ghost before = d.rest();
            proof {
                assert(before.len() >= 4 && !(QueueStore::<T>::parse(before.skip(4)) is Fault)) by {
                    if before.len() < 4 || QueueStore::<T>::parse(before.skip(4)) is Fault {
                        assert(parse_entries::<T>(before, (len - i) as nat) is Fault);
                    }
                }
            }
            let client = match d.u32() {
                Ok(c) => c,
                Err(e) => return Err(e),
            };
            match QueueStore::<T>::decode(d, ctx) {
                Ok(store) => {
                    let ghost q = QueueStore::<T>::parse(before.skip(4))->Value_0;
                    let ghost w = QueueStore::<T>::parse(before.skip(4))->Value_1;
                    let ghost old_got = got;
                    let ghost old_items = items@;
                    items.insert(client, store);
                    proof {
                        assert(parse_entries::<T>(before, (len - i) as nat) == after(
                            seq![(client, q)],
                            4 + w,
                            parse_entries::<T>(before.skip((4 + w) as int), (len - i - 1) as nat),
                        ));
                        lemma_after_after(old_got, used, seq![(client, q)], 4 + w, parse_entries::<T>(
                            before.skip((4 + w) as int), (len - i - 1) as nat,
                        ));
                        assert(before.skip(4).skip(w as int) =~= before.skip((4 + w) as int));
                        assert(start.skip(used as int).skip((4 + w) as int) =~= start.skip((used + 4 + w) as int));
                        got = old_got.push((client, q));
                        assert(old_got + seq![(client, q)] =~= got);
                        assert(got.drop_last() =~= old_got);
                        assert(items@.map_values(|q: QueueStore<T>| q.deep_view()) =~= put_all(got));
                        used = used + 4 + w;
                    }
                },
                Err(e) => {
                    proof {
                        assert(QueueStore::<T>::parse(before.skip(4)) is Invalid);
                        assert(parse_entries::<T>(before, (len - i) as nat) is Invalid);
                        assert(whole is Invalid);
                    }
                    return Err(e);
                },
            }
            i = i + 1;
        }
        proof {
            assert(parse_entries::<T>(d.rest(), 0) == Parsed::Value(
                Seq::<(ClientId, (Seq<T::V>, usize))>::empty(),
                0,
            ));
            assert(got + Seq::<(ClientId, (Seq<T::V>, usize))>::empty() =~= got);
            assert(old(d).rest().skip(4).skip(used as int) =~= old(d).rest().skip((4 + used) as int));
        }
        let r = ClientQueueStore { items };
        proof {
            assert(r.deep_view() == put_all(got));
        }
        Ok(r)
    }
}

} // verus!
