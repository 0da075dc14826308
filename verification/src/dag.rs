use crate::change::{
    below, chain, change_rel, lemma_before_trans, lemma_below, lemma_change_order_flip, overlaps,
    ranges_ok, ChangeId, ClientChangeStore,
};
use crate::change_store::{current_of, moved, pushed, ClientStackStore, ItemStackStore};
use crate::id::{ClientId, Id, IdComp, Relation, WithId};
use std::collections::{HashMap, HashSet};
use vstd::prelude::*;

verus! {

/// The key of an id among the link counts: the client above, the clock below.
pub open spec fn id_key(id: Id) -> u64 {
    (id.client as int * 0x1_0000_0000 + id.clock as int) as u64
}

/// Two ids have the same key exactly when they have the same client and clock.
pub proof fn lemma_id_key_injective(a: Id, b: Id)
    ensures
        id_key(a) == id_key(b) <==> (a.client == b.client && a.clock == b.clock),
{
    let ka = a.client as int * 0x1_0000_0000 + a.clock as int;
    let kb = b.client as int * 0x1_0000_0000 + b.clock as int;
    assert(0 <= ka <= u64::MAX) by (nonlinear_arith)
        requires
            ka == a.client as int * 0x1_0000_0000 + a.clock as int,
            0 <= a.client <= u32::MAX,
            0 <= a.clock <= u32::MAX,
    ;
    assert(0 <= kb <= u64::MAX) by (nonlinear_arith)
        requires
            kb == b.client as int * 0x1_0000_0000 + b.clock as int,
            0 <= b.client <= u32::MAX,
            0 <= b.clock <= u32::MAX,
    ;
    if ka == kb {
        assert(a.client == b.client && a.clock == b.clock) by (nonlinear_arith)
            requires
                a.client as int * 0x1_0000_0000 + a.clock as int == b.client as int * 0x1_0000_0000
                    + b.clock as int,
                0 <= a.clock < 0x1_0000_0000,
                0 <= b.clock < 0x1_0000_0000,
                0 <= a.client,
                0 <= b.client,
        ;
    }
}

/// The key of an id.
pub fn key_of(id: Id) -> (r: u64)
    ensures
        r == id_key(id),
{
    assert(id.client as int * 0x1_0000_0000 + id.clock as int <= u64::MAX) by (nonlinear_arith)
        requires
            0 <= id.client <= u32::MAX,
            0 <= id.clock <= u32::MAX,
    ;
    (id.client as u64) * 0x1_0000_0000 + (id.clock as u64)
}

/// A change of the DAG with the changes it depends on. A skipped change is passed over
/// when changes are taken back.
#[derive(Debug)]
pub struct ChangeNode {
    pub skip: bool,
    pub change: ChangeId,
    pub parents: Vec<ChangeId>,
}

impl ChangeNode {
    /// A change with no parent.
    pub fn root(change: ChangeId) -> (r: Self)
        ensures
            r.change == change,
            r.parents@.len() == 0,
            !r.skip,
    {
        ChangeNode { change, parents: Vec::new(), skip: false }
    }

    pub fn new(change: ChangeId, parents: Vec<ChangeId>) -> (r: Self)
        ensures
            r.change == change,
            r.parents@ == parents@,
            !r.skip,
    {
        ChangeNode { change, parents, skip: false }
    }

    /// The same node, marked to be passed over.
    pub fn skipped(self) -> (r: Self)
        ensures
            r.skip,
            r.change == self.change,
            r.parents@ == self.parents@,
    {
        let mut node = self;
        node.skip = true;
        node
    }

    /// The client that made the change.
    pub fn client(&self) -> (r: &ClientId)
        ensures
            *r == self.change.client,
    {
        &self.change.client
    }

}

impl Default for ChangeNode {
    /// A root node of the default change.
    fn default() -> (r: Self)
        ensures
            r.change == (ChangeId { client: 0, start: 0, end: 0 }),
            r.parents@.len() == 0,
            !r.skip,
    {
        ChangeNode { change: ChangeId::new(0, 0, 0), parents: Vec::new(), skip: false }
    }
}

impl IdComp for ChangeNode {
    open spec fn spec_comp_id(&self, other: Id) -> Relation {
        self.change.spec_comp_id(other)
    }

    fn comp_id(&self, other: &Id) -> (r: Relation) {
        self.change.comp_id(other)
    }
}

impl WithId for ChangeNode {
    open spec fn spec_id(&self) -> Id {
        self.change.spec_id()
    }

    fn id(&self) -> (r: Id) {
        self.change.id()
    }
}

impl PartialEq for ChangeNode {
    /// Nodes compare by their changes.
    fn eq(&self, other: &Self) -> (r: bool) {
        self.change.client == other.change.client && self.change.start == other.change.start
            && self.change.end == other.change.end
    }
}

impl vstd::std_specs::cmp::PartialEqSpecImpl for ChangeNode {
    open spec fn obeys_eq_spec() -> bool {
        true
    }

    open spec fn eq_spec(&self, other: &Self) -> bool {
        self.change == other.change
    }
}

impl Eq for ChangeNode {
}

/// The total and the current number of children of a parent; none when it is not counted.
pub open spec fn counts(m: Map<u64, (u32, u32)>, k: u64) -> (u32, u32) {
    if m.contains_key(k) {
        m[k]
    } else {
        (0, 0)
    }
}

/// Both counts of `k` can grow by one.
pub open spec fn can_add(m: Map<u64, (u32, u32)>, k: u64) -> bool {
    counts(m, k).0 < u32::MAX && counts(m, k).1 < u32::MAX
}

/// The counts with one more child of `k`.
pub open spec fn added(m: Map<u64, (u32, u32)>, k: u64) -> Map<u64, (u32, u32)> {
    m.insert(k, ((counts(m, k).0 + 1) as u32, (counts(m, k).1 + 1) as u32))
}

/// The counts with one more child of each parent of the run, in turn.
pub open spec fn added_all(m: Map<u64, (u32, u32)>, s: Seq<ChangeId>) -> Map<u64, (u32, u32)>
    decreases s.len(),
{
    if s.len() == 0 {
        m
    } else {
        added(added_all(m, s.drop_last()), id_key(s.last().spec_id()))
    }
}

/// No count overflows as the parents of the run are added in turn.
pub open spec fn can_add_all(m: Map<u64, (u32, u32)>, s: Seq<ChangeId>) -> bool
    decreases s.len(),
{
    s.len() == 0 || (can_add_all(m, s.drop_last()) && can_add(
        added_all(m, s.drop_last()),
        id_key(s.last().spec_id()),
    ))
}

/// The counts with one child of `k` taken back; a current count of zero stays zero.
pub open spec fn unlinked(m: Map<u64, (u32, u32)>, k: u64) -> Map<u64, (u32, u32)> {
    if m.contains_key(k) {
        m.insert(
            k,
            (
                m[k].0,
                if m[k].1 > 0 {
                    (m[k].1 - 1) as u32
                } else {
                    0
                },
            ),
        )
    } else {
        m
    }
}

/// The counts with one child of each parent of the run taken back, in turn.
pub open spec fn unlinked_all(m: Map<u64, (u32, u32)>, s: Seq<ChangeId>) -> Map<u64, (u32, u32)>
    decreases s.len(),
{
    if s.len() == 0 {
        m
    } else {
        unlinked(unlinked_all(m, s.drop_last()), id_key(s.last().spec_id()))
    }
}

/// The keys of the parents of the run that are counted in `m`.
pub open spec fn touched(m: Map<u64, (u32, u32)>, s: Seq<ChangeId>) -> Set<u64> {
    Set::new(
        |k: u64|
            m.contains_key(k) && exists|i: int|
                0 <= i < s.len() && id_key((#[trigger] s[i]).spec_id()) == k,
    )
}

/// The children of each parent change: how many there are, and how many are not taken
/// back; the parents whose current count changed since the last reset are dirty.
#[derive(Debug)]
pub struct ChangeLinks {
    pub children: HashMap<u64, (u32, u32)>,
    pub dirty: HashSet<u64>,
}

impl Default for ChangeLinks {
    fn default() -> (r: Self)
        ensures
            r.children@ == Map::<u64, (u32, u32)>::empty(),
            r.dirty@ == Set::<u64>::empty(),
    {
        ChangeLinks::new()
    }
}

impl ChangeLinks {
    pub fn new() -> (r: Self)
        ensures
            r.children@ == Map::<u64, (u32, u32)>::empty(),
            r.dirty@ == Set::<u64>::empty(),
    {
        ChangeLinks { children: HashMap::new(), dirty: HashSet::new() }
    }

    /// Counts one more child of the parent.
    pub fn add(&mut self, id: Id)
        requires
            can_add(old(self).children@, id_key(id)),
        ensures
            final(self).children@ == added(old(self).children@, id_key(id)),
            final(self).dirty@ == old(self).dirty@,
    {
        broadcast use vstd::std_specs::hash::group_hash_axioms;

        let k = key_of(id);
        let (total, current) = match self.children.get(&k) {
            Some(entry) => *entry,
            None => (0, 0),
        };
        self.children.insert(k, (total + 1, current + 1));
    }

    /// Takes one child of the parent back and marks the parent dirty; whether the parent
    /// is counted and has no child left.
    pub fn unlink_parent(&mut self, parent_id: Id) -> (r: bool)
        ensures
            final(self).children@ == unlinked(old(self).children@, id_key(parent_id)),
            final(self).dirty@ == if old(self).children@.contains_key(id_key(parent_id)) {
                old(self).dirty@.insert(id_key(parent_id))
            } else {
                old(self).dirty@
            },
            r == (old(self).children@.contains_key(id_key(parent_id))
                && final(self).children@[id_key(parent_id)].1 == 0),
    {
        broadcast use vstd::std_specs::hash::group_hash_axioms;

        let k = key_of(parent_id);
        match self.children.get(&k) {
            Some(entry) => {
                let (total, current) = *entry;
                self.dirty.insert(k);
                let current = if current > 0 {
                    current - 1
                } else {
                    current
                };
                self.children.insert(k, (total, current));
                current == 0
            },
            None => {
                assert(self.children@ =~= unlinked(old(self).children@, id_key(parent_id)));
                false
            },
        }
    }

    /// Whether the parent has no child left; a parent that is not counted has none.
    pub fn is_ready(&self, parent_id: Id) -> (r: bool)
        ensures
            r == (!self.children@.contains_key(id_key(parent_id))
                || self.children@[id_key(parent_id)].1 == 0),
    {
        broadcast use vstd::std_specs::hash::group_hash_axioms;

        let k = key_of(parent_id);
        match self.children.get(&k) {
            Some(entry) => entry.1 == 0,
            None => true,
        }
    }

    /// Gives every dirty parent back all its children and clears the marks.
    pub fn reset(&mut self)
        ensures
            final(self).children@.dom() == old(self).children@.dom(),
            forall|k: u64|
                #[trigger] old(self).children@.contains_key(k) ==> final(self).children@[k] == if old(
                    self,
                ).dirty@.contains(k) {
                    (old(self).children@[k].0, old(self).children@[k].0)
                } else {
                    old(self).children@[k]
                },
            final(self).dirty@ == Set::<u64>::empty(),
    {
        broadcast use vstd::std_specs::hash::group_hash_axioms;

        let ghost start = self.children@;
        let ghost mut seen: Seq<u64> = Seq::empty();
        for id in it: self.dirty.iter()
            invariant
                self.dirty == old(self).dirty,
                start == old(self).children@,
                it.seq().unref().to_set() == old(self).dirty@,
                it.seq().no_duplicates(),
                seen.len() == it.index(),
                forall|j: int| 0 <= j < seen.len() ==> seen[j] == *it.seq()[j],
                forall|j: int| 0 <= j < seen.len() ==> old(self).dirty@.contains(#[trigger] seen[j]),
                forall|v: u64|
                    #[trigger] old(self).dirty@.contains(v) ==> seen.contains(v) || exists|j: int|
                        it.index() <= j < it.seq().len() && *it.seq()[j] == v,
                self.children@.dom() == start.dom(),
                forall|k: u64|
                    #[trigger] start.contains_key(k) ==> self.children@[k] == if seen.contains(k) {
                        (start[k].0, start[k].0)
                    } else {
                        start[k]
                    },
        {
            let ghost k = *id;
            proof {
                assert(it.seq()[it.index() as int] == id);
                assert(it.seq().unref()[it.index() as int] == k);
                assert(it.seq().unref().contains(k));
                assert(old(self).dirty@.contains(k));
                assert(!seen.contains(k)) by {
                    if seen.contains(k) {
                        let j = choose|j: int| 0 <= j < seen.len() && seen[j] == k;
                        assert(it.seq()[j] == it.seq()[it.index() as int]);
                    }
                }
            }
            let entry = match self.children.get(id) {
                Some(entry) => Some(*entry),
                None => None,
            };
            if let Some((total, _)) = entry {
                self.children.insert(*id, (total, total));
            }
            proof {
                let old_seen = seen;
                seen = seen.push(k);
                assert forall|v: u64| #[trigger] old(self).dirty@.contains(v) implies seen.contains(v)
                    || exists|j: int| it.index() + 1 <= j < it.seq().len() && *it.seq()[j] == v by {
                    if !old_seen.contains(v) {
                        let j = choose|j: int| it.index() <= j < it.seq().len() && *it.seq()[j] == v;
                        if j == it.index() {
                            assert(seen[old_seen.len() as int] == v);
                        } else {
                            assert(it.index() + 1 <= j < it.seq().len() && *it.seq()[j] == v);
                        }
                    } else {
                        let j = choose|j: int| 0 <= j < old_seen.len() && old_seen[j] == v;
                        assert(seen[j] == v);
                    }
                }
                assert forall|v: u64| #[trigger] start.contains_key(v) implies self.children@[v]
                    == if seen.contains(v) {
                    (start[v].0, start[v].0)
                } else {
                    start[v]
                } by {
                    if v != k {
                        assert(seen.contains(v) == old_seen.contains(v)) by {
                            if seen.contains(v) {
                                let j = choose|j: int| 0 <= j < seen.len() && seen[j] == v;
                                assert(old_seen[j] == v);
                            }
                            if old_seen.contains(v) {
                                let j = choose|j: int| 0 <= j < old_seen.len() && old_seen[j] == v;
                                assert(seen[j] == v);
                            }
                        }
                    } else {
                        assert(seen[old_seen.len() as int] == v);
                    }
                }
                assert(self.children@.dom() =~= start.dom());
            }
        }
        proof {
            assert forall|v: u64| #[trigger] start.contains_key(v) implies (seen.contains(v)
                <==> old(self).dirty@.contains(v)) by {
                if old(self).dirty@.contains(v) {
                    assert(seen.contains(v));
                }
                if seen.contains(v) {
                    let j = choose|j: int| 0 <= j < seen.len() && seen[j] == v;
                    assert(old(self).dirty@.contains(seen[j]));
                }
            }
        }
        self.dirty.clear();
    }
}


/// Every entry is a well-formed change of the client it is kept under.
pub open spec fn entries_ok(c: ClientId, s: Seq<ChangeNode>) -> bool {
    forall|i: int|
        0 <= i < s.len() ==> (#[trigger] s[i]).change.client == c && s[i].change.start
            <= s[i].change.end
}

/// Every stack holds well-formed changes of its own client.
pub open spec fn stores_ok(m: Map<ClientId, ItemStackStore<ChangeNode>>) -> bool {
    forall|c: ClientId| #[trigger] m.contains_key(c) ==> entries_ok(c, m[c].items@)
}

/// The change is that of the entry right before its client's cursor.
pub open spec fn is_current(m: Map<ClientId, ItemStackStore<ChangeNode>>, e: ChangeId) -> bool {
    &&& m.contains_key(e.client)
    &&& current_of(m[e.client]) is Some
    &&& current_of(m[e.client])->0.change == e
}

/// The queued change overlaps the change of the entry right before its client's cursor.
pub open spec fn queued_ok(m: Map<ClientId, ItemStackStore<ChangeNode>>, x: ChangeId) -> bool {
    &&& m.contains_key(x.client)
    &&& current_of(m[x.client]) is Some
    &&& change_rel(x, current_of(m[x.client])->0.change) == Relation::Equal
}

/// Each queued change overlaps its client's current change, and no two queued changes
/// have the same client.
pub open spec fn queue_ok(m: Map<ClientId, ItemStackStore<ChangeNode>>, q: Seq<ChangeId>) -> bool {
    &&& forall|i: int| 0 <= i < q.len() ==> queued_ok(m, #[trigger] q[i])
    &&& forall|i: int, j: int|
        0 <= i < j < q.len() ==> (#[trigger] q[i]).client != (#[trigger] q[j]).client
}

/// Where a cursor at `k` ends when taken back: one step, then on over entries marked
/// skipped while more than one entry stays before it.
pub open spec fn back_over(items: Seq<ChangeNode>, k: int) -> int
    decreases k,
{
    let k1 = if k > 0 {
        k - 1
    } else {
        0
    };
    if 1 < k1 <= items.len() && items[k1 - 1].skip && k1 < k {
        back_over(items, k1)
    } else {
        k1
    }
}

/// Queueing the current change of a client keeps each queued change overlapping its
/// client's current change, with one queued change per client; it adds at most that change.
pub proof fn lemma_enqueue_current(
    m: Map<ClientId, ItemStackStore<ChangeNode>>,
    q: Seq<ChangeId>,
    e: ChangeId,
)
    requires
        chain(q),
        ranges_ok(q),
        queue_ok(m, q),
        stores_ok(m),
        is_current(m, e),
    ensures
        queue_ok(m, ClientChangeStore::inserted(q, e)),
        forall|x: ChangeId| q.contains(x) ==> ClientChangeStore::inserted(q, e).contains(x),
        forall|x: ChangeId|
            ClientChangeStore::inserted(q, e).contains(x) && !q.contains(x) ==> x == e,
{
    let s = m[e.client];
    assert(entries_ok(e.client, s.items@));
    assert(s.items@[s.cursor - 1].change == e);
    assert(e.start <= e.end);
    if !overlaps(q, e) {
        lemma_below(q, e);
        let p = below(q, e);
        let t = q.insert(p, e);
        assert forall|i: int| 0 <= i < q.len() implies (#[trigger] q[i]).client != e.client by {
            if q[i].client == e.client {
                assert(queued_ok(m, q[i]));
                assert(change_rel(q[i], e) == Relation::Equal);
            }
        }
        assert forall|i: int| 0 <= i < t.len() implies queued_ok(m, #[trigger] t[i]) by {
            if i < p {
                assert(t[i] == q[i]);
            } else if i > p {
                assert(t[i] == q[i - 1]);
            }
        }
        assert forall|i: int, j: int| 0 <= i < j < t.len() implies (#[trigger] t[i]).client != (
        #[trigger] t[j]).client by {
            if j < p {
                assert(t[i] == q[i] && t[j] == q[j]);
            } else if j == p {
                assert(t[i] == q[i]);
            } else if i == p {
                assert(t[j] == q[j - 1]);
            } else if i < p {
                assert(t[i] == q[i] && t[j] == q[j - 1]);
            } else {
                assert(t[i] == q[i - 1] && t[j] == q[j - 1]);
            }
        }
        assert forall|x: ChangeId| q.contains(x) implies t.contains(x) by {
            let i = choose|i: int| 0 <= i < q.len() && q[i] == x;
            if i < p {
                assert(t[i] == x);
            } else {
                assert(t[i + 1] == x);
            }
        }
        assert forall|x: ChangeId| t.contains(x) && !q.contains(x) implies x == e by {
            let i = choose|i: int| 0 <= i < t.len() && t[i] == x;
            if i < p {
                assert(q[i] == x);
            } else if i > p {
                assert(q[i - 1] == x);
            }
        }
    }
}

/// The last entry of the client, if it has one.
pub open spec fn last_of(m: Map<ClientId, ItemStackStore<ChangeNode>>, c: ClientId) -> Option<
    ChangeNode,
> {
    if m.contains_key(c) && m[c].items@.len() > 0 {
        Some(m[c].items@.last())
    } else {
        None
    }
}

/// The queue once `x` takes the place of the change of `last`, the last entry of its client.
pub open spec fn requeued(q: Seq<ChangeId>, last: Option<ChangeNode>, x: ChangeId) -> Seq<ChangeId> {
    let mid = match last {
        Some(n) => ClientChangeStore::removed(q, n.change),
        None => q,
    };
    ClientChangeStore::inserted(mid, x)
}

/// Counts that do not overflow for a run do not overflow for its prefixes.
pub proof fn lemma_can_add_prefix(m: Map<u64, (u32, u32)>, s: Seq<ChangeId>, k: int)
    requires
        can_add_all(m, s),
        0 <= k <= s.len(),
    ensures
        can_add_all(m, s.take(k)),
    decreases s.len(),
{
    if k < s.len() {
        assert(s.drop_last().take(k) =~= s.take(k));
        lemma_can_add_prefix(m, s.drop_last(), k);
    } else {
        assert(s.take(k) =~= s);
    }
}

/// In a queue with one change per client, the change of client `c` sits where a change of
/// `c` that it overlaps would go, and no other change overlaps one of `c`.
pub proof fn lemma_client_slot(q: Seq<ChangeId>, x: ChangeId)
    requires
        chain(q),
        ranges_ok(q),
        x.start <= x.end,
        forall|i: int, j: int|
            0 <= i < j < q.len() ==> (#[trigger] q[i]).client != (#[trigger] q[j]).client,
    ensures
        forall|k: int|
            0 <= k < q.len() && q[k].client == x.client && change_rel(q[k], x) == Relation::Equal
                ==> below(q, x) == k,
        forall|k: int|
            0 <= k < q.len() && change_rel(#[trigger] q[k], x) == Relation::Equal ==> q[k].client
                == x.client,
{
    lemma_below(q, x);
    assert forall|k: int|
        0 <= k < q.len() && q[k].client == x.client && change_rel(q[k], x)
            == Relation::Equal implies below(q, x) == k by {
        assert forall|i: int| 0 <= i < k implies change_rel(q[i], x) == Relation::Less by {
            assert(change_rel(q[i], q[k]) == Relation::Less);
            assert(q[i].client != q[k].client);
        }
        if below(q, x) < k {
            assert(change_rel(q[below(q, x)], x) != Relation::Less);
        }
    }
}

/// The queue once the queued change of the client's last entry is taken out.
pub open spec fn unqueued(q: Seq<ChangeId>, last: Option<ChangeNode>) -> Seq<ChangeId> {
    match last {
        Some(n) => ClientChangeStore::removed(q, n.change),
        None => q,
    }
}

/// With the client's cursor past its last entry, taking out the queued change of that
/// entry leaves an ordered queue without a change of the client.
#[verifier::spinoff_prover]
pub proof fn lemma_unqueue(m: Map<ClientId, ItemStackStore<ChangeNode>>, q: Seq<ChangeId>, c: ClientId)
    requires
        stores_ok(m),
        chain(q),
        ranges_ok(q),
        queue_ok(m, q),
        m.contains_key(c) ==> m[c].cursor == m[c].items@.len(),
    ensures
        chain(unqueued(q, last_of(m, c))),
        ranges_ok(unqueued(q, last_of(m, c))),
        queue_ok(m, unqueued(q, last_of(m, c))),
        forall|i: int|
            0 <= i < unqueued(q, last_of(m, c)).len() ==> (#[trigger] unqueued(
                q,
                last_of(m, c),
            )[i]).client != c,
{
    match last_of(m, c) {
        Some(n) => {
            assert(entries_ok(c, m[c].items@));
            assert(m[c].items@[m[c].items@.len() - 1] == n);
            lemma_client_slot(q, n.change);
            lemma_below(q, n.change);
            let p = below(q, n.change);
            if p < q.len() && change_rel(q[p], n.change) == Relation::Equal {
                let r = q.remove(p);
                assert(r == unqueued(q, last_of(m, c)));
                assert(q[p].client == c);
                assert forall|i: int| 0 <= i < r.len() implies #[trigger] r[i] == if i < p {
                    q[i]
                } else {
                    q[i + 1]
                } by {}
                assert forall|i: int, j: int| 0 <= i < j < r.len() implies change_rel(
                    #[trigger] r[i],
                    #[trigger] r[j],
                ) == Relation::Less && r[i].client != r[j].client by {
                    if j < p {
                        assert(r[i] == q[i] && r[j] == q[j]);
                    } else if i < p {
                        assert(r[i] == q[i] && r[j] == q[j + 1]);
                    } else {
                        assert(r[i] == q[i + 1] && r[j] == q[j + 1]);
                    }
                }
                assert forall|i: int| 0 <= i < r.len() implies (#[trigger] r[i]).start <= r[i].end
                    && r[i].client != c && queued_ok(m, r[i]) by {
                    if i < p {
                        assert(r[i] == q[i]);
                        assert(q[i].client != q[p].client);
                    } else {
                        assert(r[i] == q[i + 1]);
                        assert(q[p].client != q[i + 1].client);
                    }
                }
            } else {
                assert forall|i: int| 0 <= i < q.len() implies (#[trigger] q[i]).client != c by {
                    if q[i].client == c {
                        assert(queued_ok(m, q[i]));
                        assert(current_of(m[c]) == Some(n));
                    }
                }
            }
        },
        None => {
            assert forall|i: int| 0 <= i < q.len() implies (#[trigger] q[i]).client != c by {
                if q[i].client == c {
                    assert(queued_ok(m, q[i]));
                }
            }
        },
    }
}

/// Putting a change of a client whose cursor is past its last entry in place of that
/// entry's queued change keeps each queued change overlapping its client's current change.
#[verifier::spinoff_prover]
pub proof fn lemma_requeue(
    m: Map<ClientId, ItemStackStore<ChangeNode>>,
    m2: Map<ClientId, ItemStackStore<ChangeNode>>,
    q: Seq<ChangeId>,
    node: ChangeNode,
)
    requires
        stores_ok(m),
        chain(q),
        ranges_ok(q),
        queue_ok(m, q),
        node.change.start <= node.change.end,
        m.contains_key(node.change.client) ==> m[node.change.client].cursor
            == m[node.change.client].items@.len(),
        m2 == m.insert(node.change.client, m2[node.change.client]),
        pushed(m.get(node.change.client), m2[node.change.client], node),
    ensures
        queue_ok(m2, requeued(q, last_of(m, node.change.client), node.change)),
{
    let c = node.change.client;
    let x = node.change;
    lemma_unqueue(m, q, c);
    let mid = unqueued(q, last_of(m, c));
    assert(requeued(q, last_of(m, c), x) == ClientChangeStore::inserted(mid, x));
    assert forall|i: int| 0 <= i < mid.len() implies queued_ok(m2, #[trigger] mid[i]) by {
        assert(queued_ok(m, mid[i]));
        assert(mid[i].client != c);
        assert(m2[mid[i].client] == m[mid[i].client]);
    }
    assert(!overlaps(mid, x)) by {
        if overlaps(mid, x) {
            let i = choose|i: int| 0 <= i < mid.len() && change_rel(mid[i], x) == Relation::Equal;
            assert(mid[i].client != c);
        }
    }
    assert(queued_ok(m2, x)) by {
        let t = m2[c];
        match m.get(c) {
            Some(s0) => {
                assert(s0 == m[c]);
                if s0.items@.len() > 0 && s0.items@.last().spec_id().clock == node.spec_id().clock {
                    assert(entries_ok(c, s0.items@));
                    assert(s0.items@[s0.items@.len() - 1] == s0.items@.last());
                    assert(current_of(t) == Some(s0.items@.last()));
                } else {
                    assert(current_of(t) == Some(node));
                }
            },
            None => {
                assert(current_of(t) == Some(node));
            },
        }
    }
    lemma_below(mid, x);
    let t = ClientChangeStore::inserted(mid, x);
    let p = below(mid, x);
    assert(t == mid.insert(p, x));
    assert forall|i: int| 0 <= i < t.len() implies #[trigger] t[i] == if i < p {
        mid[i]
    } else if i == p {
        x
    } else {
        mid[i - 1]
    } by {}
    assert forall|i: int| 0 <= i < t.len() implies queued_ok(m2, #[trigger] t[i]) by {
        if i < p {
            assert(t[i] == mid[i]);
        } else if i > p {
            assert(t[i] == mid[i - 1]);
        }
    }
    assert forall|i: int, j: int| 0 <= i < j < t.len() implies (#[trigger] t[i]).client != (
    #[trigger] t[j]).client by {
        if j < p {
            assert(t[i] == mid[i] && t[j] == mid[j]);
        } else if j == p {
            assert(t[i] == mid[i]);
        } else if i == p {
            assert(t[j] == mid[j - 1]);
        } else if i < p {
            assert(t[i] == mid[i] && t[j] == mid[j - 1]);
        } else {
            assert(t[i] == mid[i - 1] && t[j] == mid[j - 1]);
        }
    }
}

/// Taking children back never adds or drops a counted parent.
pub proof fn lemma_unlinked_dom(m: Map<u64, (u32, u32)>, s: Seq<ChangeId>)
    ensures
        unlinked_all(m, s).dom() == m.dom(),
    decreases s.len(),
{
    if s.len() > 0 {
        lemma_unlinked_dom(m, s.drop_last());
        assert(unlinked_all(m, s).dom() =~= m.dom());
    }
}

/// The parents touched by a run grow by the last parent when it is counted.
pub proof fn lemma_touched_step(m: Map<u64, (u32, u32)>, s: Seq<ChangeId>, i: int)
    requires
        0 <= i < s.len(),
    ensures
        touched(m, s.take(i + 1)) == if m.contains_key(id_key(s[i].spec_id())) {
            touched(m, s.take(i)).insert(id_key(s[i].spec_id()))
        } else {
            touched(m, s.take(i))
        },
{
    let a = touched(m, s.take(i + 1));
    let k = id_key(s[i].spec_id());
    let b = if m.contains_key(k) {
        touched(m, s.take(i)).insert(k)
    } else {
        touched(m, s.take(i))
    };
    assert forall|x: u64| a.contains(x) <==> b.contains(x) by {
        if a.contains(x) {
            let j = choose|j: int|
                0 <= j < s.take(i + 1).len() && id_key((#[trigger] s.take(i + 1)[j]).spec_id()) == x;
            if j < i {
                assert(s.take(i)[j] == s[j]);
            }
        }
        if b.contains(x) && x != k {
            let j = choose|j: int|
                0 <= j < s.take(i).len() && id_key((#[trigger] s.take(i)[j]).spec_id()) == x;
            assert(s.take(i + 1)[j] == s[j]);
        }
        if b.contains(x) && x == k {
            assert(s.take(i + 1)[i] == s[i]);
        }
    }
    assert(a =~= b);
}

/// The sum of the cursors of the clients below `n`.
pub open spec fn cursor_sum(m: Map<ClientId, ItemStackStore<ChangeNode>>, n: nat) -> nat
    decreases n,
{
    if n == 0 {
        0
    } else {
        cursor_sum(m, (n - 1) as nat) + if m.contains_key((n - 1) as u32) {
            m[(n - 1) as u32].cursor as nat
        } else {
            0
        }
    }
}

/// The sum of the cursors of all clients.
pub open spec fn cursor_total(m: Map<ClientId, ItemStackStore<ChangeNode>>) -> nat {
    cursor_sum(m, 0x1_0000_0000)
}

/// Moving one client's cursor changes the sum by the move.
pub proof fn lemma_cursor_sum_update(
    m: Map<ClientId, ItemStackStore<ChangeNode>>,
    c: ClientId,
    t: ItemStackStore<ChangeNode>,
    n: nat,
)
    requires
        m.contains_key(c),
        n <= 0x1_0000_0000,
    ensures
        cursor_sum(m.insert(c, t), n) + (if c < n {
            m[c].cursor as int
        } else {
            0
        }) == cursor_sum(m, n) + (if c < n {
            t.cursor as int
        } else {
            0
        }),
    decreases n,
{
    if n > 0 {
        lemma_cursor_sum_update(m, c, t, (n - 1) as nat);
        let k = (n - 1) as u32;
        assert(k as nat == n - 1);
    }
}

/// For each dirty client with a queued change, the change last queued for it overlaps
/// that queued change.
pub open spec fn ends_match(
    q: Seq<ChangeId>,
    ends: Map<ClientId, ChangeId>,
    dirty: Set<ClientId>,
) -> bool {
    forall|i: int|
        0 <= i < q.len() && dirty.contains(#[trigger] q[i].client) ==> ends.contains_key(q[i].client)
            && change_rel(ends[q[i].client], q[i]) == Relation::Equal
}

/// The queue once the client's cursor is back past its last entry: the change last
/// queued for the client is taken out, and the change of its last entry put in.
pub open spec fn rewound(
    q: Seq<ChangeId>,
    end: Option<ChangeId>,
    last: Option<ChangeNode>,
) -> Seq<ChangeId> {
    match end {
        Some(e) => match last {
            Some(n) => ClientChangeStore::inserted(ClientChangeStore::removed(q, e), n.change),
            None => ClientChangeStore::removed(q, e),
        },
        None => q,
    }
}

/// Rewinding one client keeps each queued change overlapping its client's current change
/// when the change last queued for the client overlaps its queued change.
#[verifier::spinoff_prover]
pub proof fn lemma_rewind(
    m: Map<ClientId, ItemStackStore<ChangeNode>>,
    m2: Map<ClientId, ItemStackStore<ChangeNode>>,
    q: Seq<ChangeId>,
    a: ClientId,
    end: Option<ChangeId>,
)
    requires
        stores_ok(m),
        chain(q),
        ranges_ok(q),
        queue_ok(m, q),
        m.contains_key(a) ==> m2 == m.insert(a, m2[a]) && moved(m[a], m2[a], m[a].items@.len() as int),
        !m.contains_key(a) ==> m2 == m,
        end matches Some(e) ==> e.client == a && e.start <= e.end,
        forall|i: int|
            0 <= i < q.len() && (#[trigger] q[i]).client == a ==> (end matches Some(e) && change_rel(
                e,
                q[i],
            ) == Relation::Equal),
    ensures
        queue_ok(m2, rewound(q, end, last_of(m2, a))),
{
    assert forall|i: int| 0 <= i < q.len() && (#[trigger] q[i]).client != a implies queued_ok(
        m2,
        q[i],
    ) by {
        assert(queued_ok(m, q[i]));
    }
    match end {
        Some(e) => {
            lemma_client_slot(q, e);
            lemma_below(q, e);
            let p = below(q, e);
            let mid = ClientChangeStore::removed(q, e);
            if p < q.len() && change_rel(q[p], e) == Relation::Equal {
                let r = q.remove(p);
                assert(r == mid);
                assert(q[p].client == a);
                assert forall|i: int| 0 <= i < r.len() implies #[trigger] r[i] == if i < p {
                    q[i]
                } else {
                    q[i + 1]
                } by {}
                assert forall|i: int, j: int| 0 <= i < j < r.len() implies change_rel(
                    #[trigger] r[i],
                    #[trigger] r[j],
                ) == Relation::Less && r[i].client != r[j].client by {
                    if j < p {
                        assert(r[i] == q[i] && r[j] == q[j]);
                    } else if i < p {
                        assert(r[i] == q[i] && r[j] == q[j + 1]);
                    } else {
                        assert(r[i] == q[i + 1] && r[j] == q[j + 1]);
                    }
                }
                assert forall|i: int| 0 <= i < r.len() implies (#[trigger] r[i]).start <= r[i].end
                    && r[i].client != a && queued_ok(m2, r[i]) by {
                    if i < p {
                        assert(r[i] == q[i]);
                        assert(q[i].client != q[p].client);
                    } else {
                        assert(r[i] == q[i + 1]);
                        assert(q[p].client != q[i + 1].client);
                    }
                }
            } else {
                assert(mid == q);
                assert forall|i: int| 0 <= i < q.len() implies (#[trigger] q[i]).client != a by {
                    if q[i].client == a {
                        assert(change_rel(e, q[i]) == Relation::Equal);
                        lemma_change_order_flip(e, q[i]);
                        assert(p == i);
                    }
                }
            }
            assert(chain(mid) && ranges_ok(mid));
            assert(forall|i: int| 0 <= i < mid.len() ==> (#[trigger] mid[i]).client != a);
            assert(forall|i: int| 0 <= i < mid.len() ==> queued_ok(m2, #[trigger] mid[i]));
            match last_of(m2, a) {
                Some(n) => {
                    assert(m.contains_key(a));
                    assert(entries_ok(a, m[a].items@));
                    assert(m2[a].items@[m2[a].items@.len() - 1] == n);
                    assert(current_of(m2[a]) == Some(n));
                    assert(is_current(m2, n.change));
                    assert(queue_ok(m2, mid));
                    assert forall|c: ClientId| #[trigger] m2.contains_key(c) implies entries_ok(
                        c,
                        m2[c].items@,
                    ) by {
                        assert(m.contains_key(c));
                        assert(entries_ok(c, m[c].items@));
                    }
                    lemma_enqueue_current(m2, mid, n.change);
                },
                None => {
                    assert(queue_ok(m2, mid));
                },
            }
        },
        None => {
            assert forall|i: int| 0 <= i < q.len() implies (#[trigger] q[i]).client != a by {}
        },
    }
}

/// The change of the client's entry right before its cursor, when the client has one.
pub open spec fn current_change(m: Map<ClientId, ItemStackStore<ChangeNode>>, c: ClientId) -> Option<
    ChangeId,
> {
    if m.contains_key(c) && current_of(m[c]) is Some {
        Some(current_of(m[c])->0.change)
    } else {
        None
    }
}

/// The current change of the parent's client when it is the parent itself and the parent is
/// counted with no child left: the change that taking a child back queues again.
pub open spec fn ready_parent(
    ch: Map<u64, (u32, u32)>,
    m: Map<ClientId, ItemStackStore<ChangeNode>>,
    p: ChangeId,
) -> Option<ChangeId> {
    match current_change(m, p.client) {
        Some(c) => if ch.contains_key(id_key(p.spec_id())) && ch[id_key(p.spec_id())].1 == 0
            && c.spec_id() == p.spec_id() {
            Some(c)
        } else {
            None
        },
        None => None,
    }
}

/// The client's current change when it has no child left, or is not counted.
pub open spec fn ready_current(
    ch: Map<u64, (u32, u32)>,
    m: Map<ClientId, ItemStackStore<ChangeNode>>,
    c: ClientId,
) -> Option<ChangeId> {
    match current_change(m, c) {
        Some(x) => if !ch.contains_key(id_key(x.spec_id())) || ch[id_key(x.spec_id())].1 == 0 {
            Some(x)
        } else {
            None
        },
        None => None,
    }
}

/// The entries and the cursor of each client's stack.
pub open spec fn stores_view(m: Map<ClientId, ItemStackStore<ChangeNode>>) -> Map<
    ClientId,
    (Seq<ChangeNode>, int),
> {
    m.map_values(|s: ItemStackStore<ChangeNode>| (s.items@, s.cursor as int))
}

/// The change of the client's entry right before its cursor, when it has one.
pub open spec fn view_current(v: Map<ClientId, (Seq<ChangeNode>, int)>, c: ClientId) -> Option<
    ChangeId,
> {
    if v.contains_key(c) && 0 < v[c].1 <= v[c].0.len() {
        Some(v[c].0[v[c].1 - 1].change)
    } else {
        None
    }
}

/// What taking back a child of each parent of the run, in turn, leaves of the counts and of
/// the queue: a parent left counted with no child is queued when it is its client's current
/// change.
pub open spec fn requeue_parents(
    ch: Map<u64, (u32, u32)>,
    v: Map<ClientId, (Seq<ChangeNode>, int)>,
    q: Seq<ChangeId>,
    ps: Seq<ChangeId>,
) -> (Map<u64, (u32, u32)>, Seq<ChangeId>)
    decreases ps.len(),
{
    if ps.len() == 0 {
        (ch, q)
    } else {
        let before = requeue_parents(ch, v, q, ps.drop_last());
        let p = ps.last();
        let k = id_key(p.spec_id());
        let ch2 = unlinked(before.0, k);
        let q2 = match view_current(v, p.client) {
            Some(c) => if before.0.contains_key(k) && ch2[k].1 == 0 && c.start == p.start {
                ClientChangeStore::inserted(before.1, c)
            } else {
                before.1
            },
            None => before.1,
        };
        (ch2, q2)
    }
}

/// The part of a DAG that decides what taking changes back gives: the stacks, the counts of
/// children and the queue.
pub open spec fn dag_view(d: &ChangeDag) -> (
    Map<ClientId, (Seq<ChangeNode>, int)>,
    Map<u64, (u32, u32)>,
    Seq<ChangeId>,
) {
    (stores_view(d.store.map@), d.parents.children@, d.queue.set@)
}

/// One change taken back: the greatest queued change leaves the queue, its client's cursor
/// steps back over it and the skipped entries before it, each of its parents loses a child
/// (and is queued when it is left with none and is its client's current change), and the
/// client's new current change is queued when it has no child left.
pub open spec fn undo_step(
    st: (Map<ClientId, (Seq<ChangeNode>, int)>, Map<u64, (u32, u32)>, Seq<ChangeId>),
) -> (Option<ChangeId>, (Map<ClientId, (Seq<ChangeNode>, int)>, Map<u64, (u32, u32)>, Seq<ChangeId>)) {
    let v = st.0;
    let q = st.2;
    if q.len() == 0 {
        (None, st)
    } else {
        let x = q.last();
        let items = v[x.client].0;
        let node = items[v[x.client].1 - 1];
        let v1 = v.insert(x.client, (items, back_over(items, v[x.client].1)));
        let after = requeue_parents(st.1, v1, q.drop_last(), node.parents@);
        let q3 = match view_current(v1, x.client) {
            Some(c) => if !after.0.contains_key(id_key(c.spec_id())) || after.0[id_key(
                c.spec_id(),
            )].1 == 0 {
                ClientChangeStore::inserted(after.1, c)
            } else {
                after.1
            },
            None => after.1,
        };
        (Some(x), (v1, after.0, q3))
    }
}

/// The changes that taking back gives, in turn, until none is queued or `fuel` runs out.
pub open spec fn undo_run(
    st: (Map<ClientId, (Seq<ChangeNode>, int)>, Map<u64, (u32, u32)>, Seq<ChangeId>),
    fuel: nat,
) -> Seq<ChangeId>
    decreases fuel,
{
    if fuel == 0 {
        Seq::empty()
    } else {
        match undo_step(st).0 {
            Some(x) => seq![x] + undo_run(undo_step(st).1, (fuel - 1) as nat),
            None => Seq::empty(),
        }
    }
}

/// What adding a change does to the part of a DAG that decides what taking changes back
/// gives: the change is pushed onto its client's stack (unless its clock is that of the
/// client's last entry), counted as a child of each of its parents, and queued in place of
/// the change of its client's last entry.
pub open spec fn insert_view(
    v: (Map<ClientId, (Seq<ChangeNode>, int)>, Map<u64, (u32, u32)>, Seq<ChangeId>),
    node: ChangeNode,
) -> (Map<ClientId, (Seq<ChangeNode>, int)>, Map<u64, (u32, u32)>, Seq<ChangeId>) {
    let c = node.change.client;
    let items = if v.0.contains_key(c) {
        v.0[c].0
    } else {
        Seq::empty()
    };
    let cursor = if v.0.contains_key(c) {
        v.0[c].1
    } else {
        0
    };
    let last = if items.len() > 0 {
        Some(items.last())
    } else {
        None
    };
    let st = if items.len() > 0 && items.last().spec_id().clock == node.spec_id().clock {
        (items, cursor)
    } else {
        (items.push(node), cursor + 1)
    };
    (v.0.insert(c, st), added_all(v.1, node.parents@), requeued(v.2, last, node.change))
}

/// The view of an empty DAG.
pub open spec fn empty_view() -> (
    Map<ClientId, (Seq<ChangeNode>, int)>,
    Map<u64, (u32, u32)>,
    Seq<ChangeId>,
) {
    (Map::empty(), Map::empty(), Seq::empty())
}

/// The view of a DAG made by adding the nodes one after the other to an empty DAG.
pub open spec fn built(ns: Seq<ChangeNode>) -> (
    Map<ClientId, (Seq<ChangeNode>, int)>,
    Map<u64, (u32, u32)>,
    Seq<ChangeId>,
)
    decreases ns.len(),
{
    if ns.len() == 0 {
        empty_view()
    } else {
        insert_view(built(ns.drop_last()), ns.last())
    }
}

/// The counts that taking back a child of each parent leaves are those of `unlinked_all`.
pub proof fn lemma_requeue_counts(
    ch: Map<u64, (u32, u32)>,
    v: Map<ClientId, (Seq<ChangeNode>, int)>,
    q: Seq<ChangeId>,
    ps: Seq<ChangeId>,
)
    ensures
        requeue_parents(ch, v, q, ps).0 == unlinked_all(ch, ps),
    decreases ps.len(),
{
    if ps.len() > 0 {
        lemma_requeue_counts(ch, v, q, ps.drop_last());
    }
}

/// The current change of a client read from the stacks is the one read from their view.
pub proof fn lemma_view_current(m: Map<ClientId, ItemStackStore<ChangeNode>>, c: ClientId)
    ensures
        view_current(stores_view(m), c) == current_change(m, c),
{
}

/// Taking a child of `ps[i]` back keeps every parent before it that is ready overlapped in
/// the queue, given that `ps[i]` itself is when it is ready.
pub proof fn lemma_ready_step(
    ch: Map<u64, (u32, u32)>,
    m: Map<ClientId, ItemStackStore<ChangeNode>>,
    ps: Seq<ChangeId>,
    i: int,
    q: Seq<ChangeId>,
    q2: Seq<ChangeId>,
)
    requires
        0 <= i < ps.len(),
        forall|y: ChangeId| q.contains(y) ==> q2.contains(y),
        forall|j: int|
            0 <= j < i ==> (ready_parent(ch, m, #[trigger] ps[j]) matches Some(c) ==> overlaps(q, c)),
        ready_parent(unlinked(ch, id_key(ps[i].spec_id())), m, ps[i]) matches Some(c) ==> overlaps(
            q2,
            c,
        ),
    ensures
        forall|j: int|
            0 <= j < i + 1 ==> (ready_parent(
                unlinked(ch, id_key(ps[i].spec_id())),
                m,
                #[trigger] ps[j],
            ) matches Some(c) ==> overlaps(q2, c)),
{
    let k = id_key(ps[i].spec_id());
    let ch2 = unlinked(ch, k);
    assert forall|j: int| 0 <= j < i + 1 implies (ready_parent(ch2, m, #[trigger] ps[j]) matches Some(
        c,
    ) ==> overlaps(q2, c)) by {
        if j < i {
            let kj = id_key(ps[j].spec_id());
            lemma_id_key_injective(ps[j].spec_id(), ps[i].spec_id());
            if kj != k {
                assert(ready_parent(ch2, m, ps[j]) == ready_parent(ch, m, ps[j]));
                if let Some(c) = ready_parent(ch, m, ps[j]) {
                    let y = choose|y: int| 0 <= y < q.len() && change_rel(q[y], c) == Relation::Equal;
                    assert(q.contains(q[y]));
                    assert(q2.contains(q[y]));
                    let z = choose|z: int| 0 <= z < q2.len() && q2[z] == q[y];
                    assert(change_rel(q2[z], c) == Relation::Equal);
                }
            } else {
                assert(ps[j].spec_id() == ps[i].spec_id());
                assert(ps[j].client == ps[i].client);
                assert(ready_parent(ch2, m, ps[j]) == ready_parent(ch2, m, ps[i]));
            }
        }
    }
}

/// Taking out the queued change overlapping `x` keeps the changes of other clients.
pub proof fn lemma_removed_keeps(q: Seq<ChangeId>, x: ChangeId, e: ChangeId)
    requires
        chain(q),
        ranges_ok(q),
        x.start <= x.end,
        q.contains(e),
        e.client != x.client,
    ensures
        ClientChangeStore::removed(q, x).contains(e),
{
    lemma_below(q, x);
    let p = below(q, x);
    let i = choose|i: int| 0 <= i < q.len() && q[i] == e;
    if p < q.len() && change_rel(q[p], x) == Relation::Equal {
        let r = q.remove(p);
        if i < p {
            assert(r[i] == e);
        } else {
            assert(i != p);
            assert(r[i - 1] == e);
        }
    }
}

/// Queueing a change keeps the queued changes.
pub proof fn lemma_inserted_keeps(q: Seq<ChangeId>, x: ChangeId, e: ChangeId)
    requires
        chain(q),
        ranges_ok(q),
        x.start <= x.end,
        q.contains(e),
    ensures
        ClientChangeStore::inserted(q, x).contains(e),
{
    if !overlaps(q, x) {
        lemma_below(q, x);
        let p = below(q, x);
        let t = q.insert(p, x);
        let i = choose|i: int| 0 <= i < q.len() && q[i] == e;
        if i < p {
            assert(t[i] == e);
        } else {
            assert(t[i + 1] == e);
        }
    }
}

/// After queueing a well-formed change, some queued change overlaps it.
pub proof fn lemma_inserted_overlaps(q: Seq<ChangeId>, x: ChangeId)
    requires
        x.start <= x.end,
    ensures
        overlaps(ClientChangeStore::inserted(q, x), x),
{
    if !overlaps(q, x) {
        lemma_below_range(q, x);
        let t = q.insert(below(q, x), x);
        assert(t[below(q, x)] == x);
        assert(change_rel(x, x) == Relation::Equal);
    }
}

/// Taking a change out keeps the queue ordered and its changes well formed.
pub proof fn lemma_removed_chain(q: Seq<ChangeId>, x: ChangeId)
    requires
        chain(q),
        ranges_ok(q),
        x.start <= x.end,
    ensures
        chain(ClientChangeStore::removed(q, x)),
        ranges_ok(ClientChangeStore::removed(q, x)),
{
    lemma_below(q, x);
    let p = below(q, x);
    if p < q.len() && change_rel(q[p], x) == Relation::Equal {
        let r = q.remove(p);
        assert forall|i: int, j: int| 0 <= i < j < r.len() implies change_rel(
            #[trigger] r[i],
            #[trigger] r[j],
        ) == Relation::Less by {
            let ii = if i < p { i } else { i + 1 };
            let jj = if j < p { j } else { j + 1 };
            assert(r[i] == q[ii] && r[j] == q[jj]);
        }
        assert forall|i: int| 0 <= i < r.len() implies (#[trigger] r[i]).start <= r[i].end by {
            let ii = if i < p { i } else { i + 1 };
            assert(r[i] == q[ii]);
        }
    }
}

/// Where a change would go lies within the run.
pub proof fn lemma_below_range(s: Seq<ChangeId>, x: ChangeId)
    ensures
        0 <= below(s, x) <= s.len(),
    decreases s.len(),
{
    if s.len() > 0 {
        lemma_below_range(s.drop_last(), x);
    }
}

/// The queue after a rewind holds only changes it held before and the new one.
#[verifier::spinoff_prover]
#[verifier::rlimit(30)]
pub proof fn lemma_rewound_sub(
    q: Seq<ChangeId>,
    end: Option<ChangeId>,
    last: Option<ChangeNode>,
    e: ChangeId,
)
    requires
        chain(q),
        ranges_ok(q),
        end matches Some(x) ==> x.start <= x.end,
        rewound(q, end, last).contains(e),
    ensures
        q.contains(e) || (last matches Some(n) && e == n.change),
{
    if let Some(x) = end {
        lemma_below(q, x);
        let p = below(q, x);
        let mid = ClientChangeStore::removed(q, x);
        assert(forall|k: int| 0 <= k < mid.len() ==> q.contains(#[trigger] mid[k])) by {
            if p < q.len() && change_rel(q[p], x) == Relation::Equal {
                assert forall|k: int| 0 <= k < mid.len() implies q.contains(#[trigger] mid[k]) by {
                    if k < p {
                        assert(mid[k] == q[k]);
                    } else {
                        assert(mid[k] == q[k + 1]);
                    }
                }
            } else {
                assert forall|k: int| 0 <= k < mid.len() implies q.contains(#[trigger] mid[k]) by {
                    assert(mid[k] == q[k]);
                }
            }
        }
        if let Some(n) = last {
            let t = ClientChangeStore::inserted(mid, n.change);
            let k = choose|k: int| 0 <= k < t.len() && t[k] == e;
            if !overlaps(mid, n.change) {
                let pp = below(mid, n.change);
                lemma_below_range(mid, n.change);
                if k < pp {
                    assert(t[k] == mid[k]);
                } else if k > pp {
                    assert(t[k] == mid[k - 1]);
                }
            } else {
                assert(t[k] == mid[k]);
            }
        } else {
            let k = choose|k: int| 0 <= k < mid.len() && mid[k] == e;
            assert(q.contains(mid[k]));
        }
    }
}

/// Taking a cursor back from a position past the first entry moves it back.
pub proof fn lemma_back_over_lt(items: Seq<ChangeNode>, k: int)
    requires
        k >= 1,
    ensures
        0 <= back_over(items, k) <= k - 1,
    decreases k,
{
    let k1 = k - 1;
    if 1 < k1 <= items.len() && items[k1 - 1].skip && k1 < k {
        lemma_back_over_lt(items, k1);
    }
}

/// The changes of a document as a DAG of dependencies, taken back one by one in an order
/// in which no change goes before a change that depends on it.
pub struct ChangeDag {
    /// The changes of each client, in the order they were made.
    pub store: ClientStackStore<ChangeNode>,
    /// The children of each change.
    pub parents: ChangeLinks,
    /// The changes ready to be taken back.
    pub queue: ClientChangeStore,
    /// The change last queued for each client.
    pub ends: HashMap<ClientId, ChangeId>,
    /// The clients whose changes were taken back since the last reset.
    pub dirty: HashSet<ClientId>,
}

impl Default for ChangeDag {
    fn default() -> (r: Self)
        ensures
            r.wf(),
            dag_view(&r) == empty_view(),
            r.store.map@ == Map::<ClientId, ItemStackStore<ChangeNode>>::empty(),
            r.parents.children@ == Map::<u64, (u32, u32)>::empty(),
            r.queue.set@.len() == 0,
            r.ends@ == Map::<ClientId, ChangeId>::empty(),
            r.dirty@ == Set::<ClientId>::empty(),
    {
        ChangeDag::new()
    }
}

impl ChangeDag {
    /// The queue is ordered, the stacks hold well-formed changes of their clients and the
    /// ends are well formed.
    pub open spec fn sound(&self) -> bool {
        &&& self.queue.wf()
        &&& stores_ok(self.store.map@)
        &&& forall|c: ClientId|
            #[trigger] self.ends@.contains_key(c) ==> self.ends@[c].start <= self.ends@[c].end
                && self.ends@[c].client == c
    }

    /// Sound, and each queued change overlaps its client's current change, one per client.
    pub open spec fn wf(&self) -> bool {
        &&& self.sound()
        &&& queue_ok(self.store.map@, self.queue.set@)
    }

    pub fn new() -> (r: Self)
        ensures
            r.wf(),
            dag_view(&r) == empty_view(),
            r.store.map@ == Map::<ClientId, ItemStackStore<ChangeNode>>::empty(),
            r.parents.children@ == Map::<u64, (u32, u32)>::empty(),
            r.parents.dirty@ == Set::<u64>::empty(),
            r.queue.set@.len() == 0,
            r.ends@ == Map::<ClientId, ChangeId>::empty(),
            r.dirty@ == Set::<ClientId>::empty(),
    {
        let r = ChangeDag {
            store: ClientStackStore::new(),
            parents: ChangeLinks::new(),
            queue: ClientChangeStore::new(),
            ends: HashMap::new(),
            dirty: HashSet::new(),
        };
        proof {
            assert(stores_view(r.store.map@) =~= Map::<ClientId, (Seq<ChangeNode>, int)>::empty());
            assert(r.queue.set@ =~= Seq::<ChangeId>::empty());
        }
        r
    }
}


impl ChangeDag {
    /// Adds a change: counts it as a child of each of its parents, queues it in place of the
    /// queued change of its client's last entry and pushes it onto its client's stack.
    pub fn insert(&mut self, node: ChangeNode) -> (r: Result<(), String>)
        requires
            old(self).sound(),
            node.change.start <= node.change.end,
            can_add_all(old(self).parents.children@, node.parents@),
            old(self).store.map@.contains_key(node.change.client) ==> old(
                self,
            ).store.map@[node.change.client].cursor < usize::MAX,
        ensures
            r is Ok,
            final(self).sound(),
            dag_view(final(self)) == insert_view(dag_view(old(self)), node),
            final(self).parents.children@ == added_all(old(self).parents.children@, node.parents@),
            final(self).parents.dirty@ == old(self).parents.dirty@,
            final(self).queue.set@ == requeued(
                old(self).queue.set@,
                last_of(old(self).store.map@, node.change.client),
                node.change,
            ),
            final(self).ends@ == old(self).ends@.insert(node.change.client, node.change),
            final(self).store.map@ == old(self).store.map@.insert(
                node.change.client,
                final(self).store.map@[node.change.client],
            ),
            pushed(
                old(self).store.map@.get(node.change.client),
                final(self).store.map@[node.change.client],
                node,
            ),
            final(self).dirty@ == old(self).dirty@,
            old(self).wf() && (old(self).store.map@.contains_key(node.change.client) ==> old(
                self,
            ).store.map@[node.change.client].cursor == old(
                self,
            ).store.map@[node.change.client].items@.len()) ==> final(self).wf(),
    {
        broadcast use vstd::std_specs::hash::group_hash_axioms;

        let ghost links0 = self.parents.children@;
        let mut i: usize = 0;
        while i < node.parents.len()
            invariant
                i <= node.parents@.len(),
                can_add_all(links0, node.parents@),
                self.parents.children@ == added_all(links0, node.parents@.take(i as int)),
                self.parents.dirty@ == old(self).parents.dirty@,
                self.store == old(self).store,
                self.queue == old(self).queue,
                self.ends == old(self).ends,
                self.dirty == old(self).dirty,
            decreases node.parents@.len() - i,
        {
            proof {
                lemma_can_add_prefix(links0, node.parents@, i + 1);
                assert(node.parents@.take(i + 1).drop_last() =~= node.parents@.take(i as int));
                assert(node.parents@.take(i + 1).last() == node.parents@[i as int]);
            }
            let id = node.parents[i].id();
            self.parents.add(id);
            i = i + 1;
        }
        proof {
            assert(node.parents@.take(i as int) =~= node.parents@);
        }
        let client = node.change.client;
        let ghost q0 = self.queue.set@;
        let ghost m0 = self.store.map@;
        match self.store.last(&client) {
            Some(last) => {
                let lc = last.change;
                proof {
                    assert(entries_ok(client, m0[client].items@));
                    assert(m0[client].items@[m0[client].items@.len() - 1] == *last);
                }
                self.queue.remove_change(&lc);
            },
            None => {},
        }
        self.queue.insert(node.change);
        self.ends.insert(client, node.change);
        let ghost n = node;
        self.store.insert(client, node);
        proof {
            let m2 = self.store.map@;
            assert forall|c: ClientId| #[trigger] m2.contains_key(c) implies entries_ok(
                c,
                m2[c].items@,
            ) by {
                if c != client {
                    assert(m2[c] == m0[c]);
                } else {
                    if m0.contains_key(c) {
                        assert(entries_ok(c, m0[c].items@));
                    }
                }
            }
            if old(self).wf() && (m0.contains_key(client) ==> m0[client].cursor
                == m0[client].items@.len()) {
                lemma_requeue(m0, m2, q0, n);
            }
            assert(stores_view(m2) =~= insert_view(dag_view(old(self)), n).0);
        }
        Ok(())
    }
}


impl ChangeDag {
    /// Takes back the greatest queued change: its client's cursor steps back over it and
    /// over the skipped entries before it, each of its parents loses a child, and a parent
    /// left with no child, when it is the current entry of its client, is queued, as is the
    /// new current entry of the client when it has no child left.
    #[verifier::rlimit(40)]
    pub fn undo(&mut self) -> (r: Option<ChangeId>)
        requires
            old(self).wf(),
        ensures
            final(self).wf(),
            r == undo_step(dag_view(old(self))).0,
            dag_view(final(self)) == undo_step(dag_view(old(self))).1,
            old(self).queue.set@.len() == 0 ==> r is None && final(self).store.map@ == old(
                self,
            ).store.map@ && final(self).parents.children@ == old(self).parents.children@
                && final(self).parents.dirty@ == old(self).parents.dirty@ && final(self).queue.set@
                == old(self).queue.set@ && final(self).ends@ == old(self).ends@ && final(self).dirty@
                == old(self).dirty@,
            old(self).queue.set@.len() > 0 ==> ({
                let x = old(self).queue.set@.last();
                let s = old(self).store.map@[x.client];
                let node = s.items@[s.cursor - 1];
                &&& r == Some(x)
                &&& final(self).store.map@ == old(self).store.map@.insert(
                    x.client,
                    final(self).store.map@[x.client],
                )
                &&& moved(s, final(self).store.map@[x.client], back_over(s.items@, s.cursor as int))
                &&& final(self).parents.children@ == unlinked_all(
                    old(self).parents.children@,
                    node.parents@,
                )
                &&& final(self).parents.dirty@ == old(self).parents.dirty@.union(
                    touched(old(self).parents.children@, node.parents@),
                )
                &&& final(self).dirty@ == old(self).dirty@.insert(x.client)
                &&& forall|e: ChangeId|
                    old(self).queue.set@.drop_last().contains(e) ==> final(self).queue.set@.contains(e)
                &&& forall|e: ChangeId|
                    final(self).queue.set@.contains(e) && !old(self).queue.set@.drop_last().contains(e)
                        ==> is_current(final(self).store.map@, e)
                &&& forall|p: ChangeId|
                    #[trigger] node.parents@.contains(p) ==> (ready_parent(
                        final(self).parents.children@,
                        final(self).store.map@,
                        p,
                    ) matches Some(c) ==> overlaps(final(self).queue.set@, c))
                &&& ready_current(final(self).parents.children@, final(self).store.map@, x.client) matches Some(
                    c,
                ) ==> overlaps(final(self).queue.set@, c)
                &&& forall|c: ClientId|
                    old(self).ends@.contains_key(c) ==> final(self).ends@.contains_key(c)
                &&& forall|c: ClientId|
                    #[trigger] final(self).ends@.contains_key(c) ==> (old(self).ends@.contains_key(c)
                        && final(self).ends@[c] == old(self).ends@[c]) || is_current(
                        final(self).store.map@,
                        final(self).ends@[c],
                    )
            }),
    {
        broadcast use vstd::std_specs::hash::group_hash_axioms;

        let ghost q0 = self.queue.set@;
        let last_id = self.queue.pop_last();
        if let Some(change_id) = last_id {
            let client = change_id.client;
            let ghost m0 = self.store.map@;
            let ghost s0 = m0[client];
            let ghost q1 = self.queue.set@;
            proof {
                assert(q0[q0.len() - 1] == change_id);
                assert(queued_ok(m0, change_id));
                assert(entries_ok(client, s0.items@));
            }
            let cursor = self.store.cursor(client);
            loop
                invariant_except_break
                    self.store.map@.contains_key(client),
                    self.store.map@ == m0.insert(client, self.store.map@[client]),
                    self.store.map@[client].items@ == s0.items@,
                    back_over(s0.items@, self.store.map@[client].cursor as int) == back_over(
                        s0.items@,
                        s0.cursor as int,
                    ),
                    self.queue.wf(),
                    self.queue.set@ == q1,
                    self.parents == old(self).parents,
                    self.ends == old(self).ends,
                    self.dirty == old(self).dirty,
                ensures
                    self.store.map@ == m0.insert(client, self.store.map@[client]),
                    moved(s0, self.store.map@[client], back_over(s0.items@, s0.cursor as int)),
                    self.queue.wf(),
                    self.queue.set@ == q1,
                    self.parents == old(self).parents,
                    self.ends == old(self).ends,
                    self.dirty == old(self).dirty,
                decreases self.store.map@[client].cursor,
            {
                let skip = match self.store.prev(client) {
                    Some(node) => node.skip,
                    None => false,
                };
                if !skip {
                    break;
                }
            }
            self.dirty.insert(client);
            let ghost m1 = self.store.map@;
            let ghost node = s0.items@[s0.cursor - 1];
            let mut ps: Vec<ChangeId> = Vec::new();
            if let Some(cursor) = cursor {
                match self.store.at_cursor(client, cursor) {
                    Some(n) => {
                        let mut j: usize = 0;
                        while j < n.parents.len()
                            invariant
                                j <= n.parents@.len(),
                                ps@ == n.parents@.take(j as int),
                            decreases n.parents@.len() - j,
                        {
                            ps.push(n.parents[j]);
                            j = j + 1;
                            proof {
                                assert(ps@ =~= n.parents@.take(j as int));
                            }
                        }
                        proof {
                            assert(ps@ =~= n.parents@);
                        }
                    },
                    None => {},
                }
            }
            proof {
                assert(ps@ == node.parents@);
                assert forall|c: ClientId| #[trigger] m1.contains_key(c) implies entries_ok(
                    c,
                    m1[c].items@,
                ) by {
                    assert(m0.contains_key(c));
                    assert(entries_ok(c, m0[c].items@));
                }
                assert forall|i: int| 0 <= i < q1.len() implies queued_ok(m1, #[trigger] q1[i]) by {
                    assert(q1[i] == q0[i]);
                    assert(queued_ok(m0, q0[i]));
                    assert(q0[i].client != q0[q0.len() - 1].client);
                }
                assert forall|i: int, j: int| 0 <= i < j < q1.len() implies (#[trigger] q1[i]).client
                    != (#[trigger] q1[j]).client by {
                    assert(q1[i] == q0[i] && q1[j] == q0[j]);
                }
            }
            let ghost c0 = self.parents.children@;
            let ghost d0 = self.parents.dirty@;
            proof {
                assert(ps@.take(0) =~= Seq::<ChangeId>::empty());
            }
            let mut i: usize = 0;
            while i < ps.len()
                invariant
                    i <= ps@.len(),
                    self.store.map@ == m1,
                    stores_ok(m1),
                    self.queue.wf(),
                    queue_ok(m1, self.queue.set@),
                    forall|e: ChangeId| q1.contains(e) ==> self.queue.set@.contains(e),
                    forall|e: ChangeId|
                        self.queue.set@.contains(e) && !q1.contains(e) ==> is_current(m1, e),
                    forall|j: int|
                        0 <= j < i ==> (ready_parent(self.parents.children@, m1, #[trigger] ps@[j]) matches Some(
                            c,
                        ) ==> overlaps(self.queue.set@, c)),
                    self.parents.children@ == unlinked_all(c0, ps@.take(i as int)),
                    (self.parents.children@, self.queue.set@) == requeue_parents(
                        c0,
                        stores_view(m1),
                        q1,
                        ps@.take(i as int),
                    ),
                    self.parents.dirty@ == d0.union(touched(c0, ps@.take(i as int))),
                    self.dirty@ == old(self).dirty@.insert(client),
                    forall|c: ClientId| old(self).ends@.contains_key(c) ==> self.ends@.contains_key(c),
                    forall|c: ClientId|
                        #[trigger] self.ends@.contains_key(c) ==> (old(self).ends@.contains_key(c)
                            && self.ends@[c] == old(self).ends@[c]) || is_current(m1, self.ends@[c]),
                    forall|c: ClientId|
                        #[trigger] self.ends@.contains_key(c) ==> self.ends@[c].start
                            <= self.ends@[c].end && self.ends@[c].client == c,
                decreases ps@.len() - i,
            {
                let p = ps[i];
                let ghost ch_b = self.parents.children@;
                let ghost q_b = self.queue.set@;
                proof {
                    lemma_unlinked_dom(c0, ps@.take(i as int));
                    lemma_touched_step(c0, ps@, i as int);
                    assert(ps@.take(i + 1).drop_last() =~= ps@.take(i as int));
                    assert(ps@.take(i + 1).last() == p);
                }
                let ready = self.parents.unlink_parent(p.id());
                proof {
                    assert(self.parents.dirty@ =~= d0.union(touched(c0, ps@.take(i + 1))));
                }
                if ready {
                    match self.store.current(p.client) {
                        Some(last) => {
                            if last.id() == p.id() {
                                let c = last.change;
                                proof {
                                    let st = m1[p.client];
                                    assert(entries_ok(p.client, st.items@));
                                    assert(st.items@[st.cursor - 1] == *last);
                                    assert(is_current(m1, c));
                                    lemma_enqueue_current(m1, self.queue.set@, c);
                                }
                                self.queue.insert(c);
                                self.ends.insert(c.client, c);
                                proof {
                                    lemma_inserted_overlaps(q_b, c);
                                }
                            }
                        },
                        None => {},
                    }
                }
                proof {
                    assert(self.parents.children@ == unlinked(ch_b, id_key(p.spec_id())));
                    lemma_view_current(m1, p.client);
                    assert((self.parents.children@, self.queue.set@) == requeue_parents(
                        c0,
                        stores_view(m1),
                        q1,
                        ps@.take(i + 1),
                    ));
                    if let Some(c) = ready_parent(self.parents.children@, m1, p) {
                        let st = m1[p.client];
                        assert(entries_ok(p.client, st.items@));
                        assert(st.items@[st.cursor - 1].change == c);
                        assert(c.client == p.client);
                        assert(overlaps(self.queue.set@, c));
                    }
                    lemma_ready_step(ch_b, m1, ps@, i as int, q_b, self.queue.set@);
                }
                i = i + 1;
            }
            let ghost after = requeue_parents(c0, stores_view(m1), q1, ps@);
            proof {
                assert(ps@.take(i as int) =~= ps@);
                lemma_view_current(m1, client);
                assert(stores_view(m1) =~= stores_view(m0).insert(
                    client,
                    (s0.items@, back_over(s0.items@, s0.cursor as int)),
                ));
                assert(q0.last() == change_id);
                assert(q0.drop_last() =~= q1);
                assert(self.parents.children@ == after.0 && self.queue.set@ == after.1);
            }
            match self.store.current(client) {
                Some(curr) => {
                    let c = curr.change;
                    proof {
                        let st = m1[client];
                        assert(entries_ok(client, st.items@));
                        assert(st.items@[st.cursor - 1] == *curr);
                        assert(is_current(m1, c));
                    }
                    let ghost q_b = self.queue.set@;
                    if self.parents.is_ready(c.id()) {
                        proof {
                            lemma_enqueue_current(m1, self.queue.set@, c);
                        }
                        self.queue.insert(c);
                        self.ends.insert(c.client, c);
                        proof {
                            lemma_inserted_overlaps(q_b, c);
                        }
                    }
                    proof {
                        assert forall|j: int|
                            0 <= j < ps@.len() implies (ready_parent(
                                self.parents.children@,
                                m1,
                                #[trigger] ps@[j],
                            ) matches Some(cc) ==> overlaps(self.queue.set@, cc)) by {
                            if let Some(cc) = ready_parent(self.parents.children@, m1, ps@[j]) {
                                let y = choose|y: int|
                                    0 <= y < q_b.len() && change_rel(q_b[y], cc) == Relation::Equal;
                                assert(q_b.contains(q_b[y]));
                                assert(self.queue.set@.contains(q_b[y]));
                                let z = choose|z: int|
                                    0 <= z < self.queue.set@.len() && self.queue.set@[z] == q_b[y];
                                assert(change_rel(self.queue.set@[z], cc) == Relation::Equal);
                            }
                        }
                    }
                },
                None => {},
            }
            proof {
                assert forall|pp: ChangeId| #[trigger] node.parents@.contains(pp) implies (ready_parent(
                    self.parents.children@,
                    self.store.map@,
                    pp,
                ) matches Some(cc) ==> overlaps(self.queue.set@, cc)) by {
                    let j = choose|j: int| 0 <= j < node.parents@.len() && node.parents@[j] == pp;
                    assert(ps@[j] == pp);
                }
            }
        }
        last_id
    }
}


impl ChangeDag {
    /// Ends a round of taking changes back: each dirty client's cursor moves back past its
    /// last entry, and the change last queued for the client, if any, gives its place in the
    /// queue to the change of that last entry.
    pub fn done(&mut self)
        requires
            old(self).sound(),
        ensures
            final(self).sound(),
            final(self).parents == old(self).parents,
            final(self).ends@ == old(self).ends@,
            final(self).dirty@ == old(self).dirty@,
            final(self).store.map@.dom() == old(self).store.map@.dom(),
            forall|c: ClientId|
                #[trigger] old(self).store.map@.contains_key(c) ==> if old(self).dirty@.contains(c) {
                    moved(
                        old(self).store.map@[c],
                        final(self).store.map@[c],
                        old(self).store.map@[c].items@.len() as int,
                    )
                } else {
                    final(self).store.map@[c] == old(self).store.map@[c]
                },
            forall|e: ChangeId|
                old(self).queue.set@.contains(e) && !old(self).dirty@.contains(e.client)
                    ==> final(self).queue.set@.contains(e),
            forall|e: ChangeId|
                #[trigger] final(self).queue.set@.contains(e) ==> old(self).queue.set@.contains(e) || (
                old(self).dirty@.contains(e.client) && (last_of(old(self).store.map@, e.client) matches Some(
                    n,
                ) && e == n.change)),
            forall|c: ClientId|
                #[trigger] old(self).dirty@.contains(c) && old(self).ends@.contains_key(c) ==> (last_of(
                    old(self).store.map@,
                    c,
                ) matches Some(n) ==> overlaps(final(self).queue.set@, n.change)),
            old(self).wf() && ends_match(old(self).queue.set@, old(self).ends@, old(self).dirty@)
                ==> final(self).wf(),
    {
        broadcast use vstd::std_specs::hash::group_hash_axioms;

        let ghost m0 = self.store.map@;
        let ghost q0 = self.queue.set@;
        let ghost good = old(self).wf() && ends_match(q0, old(self).ends@, old(self).dirty@);
        let ghost mut seen: Seq<ClientId> = Seq::empty();
        for client_id in it: self.dirty.iter()
            invariant
                self.dirty == old(self).dirty,
                self.parents == old(self).parents,
                self.ends == old(self).ends,
                self.queue.wf(),
                stores_ok(self.store.map@),
                forall|c: ClientId|
                    #[trigger] self.ends@.contains_key(c) ==> self.ends@[c].start <= self.ends@[c].end
                        && self.ends@[c].client == c,
                it.seq().unref().to_set() == old(self).dirty@,
                it.seq().no_duplicates(),
                seen.len() == it.index(),
                forall|j: int| 0 <= j < seen.len() ==> seen[j] == *it.seq()[j],
                forall|j: int| 0 <= j < seen.len() ==> old(self).dirty@.contains(#[trigger] seen[j]),
                forall|v: ClientId|
                    #[trigger] old(self).dirty@.contains(v) ==> seen.contains(v) || exists|j: int|
                        it.index() <= j < it.seq().len() && *it.seq()[j] == v,
                self.store.map@.dom() == m0.dom(),
                forall|c: ClientId|
                    #[trigger] m0.contains_key(c) ==> if seen.contains(c) {
                        moved(m0[c], self.store.map@[c], m0[c].items@.len() as int)
                    } else {
                        self.store.map@[c] == m0[c]
                    },
                forall|e: ChangeId|
                    q0.contains(e) && !old(self).dirty@.contains(e.client) ==> self.queue.set@.contains(e),
                forall|e: ChangeId|
                    #[trigger] self.queue.set@.contains(e) ==> q0.contains(e) || (seen.contains(e.client)
                        && (last_of(m0, e.client) matches Some(n) && e == n.change)),
                forall|c: ClientId|
                    #[trigger] seen.contains(c) && self.ends@.contains_key(c) ==> (last_of(m0, c) matches Some(
                        n,
                    ) ==> overlaps(self.queue.set@, n.change)),
                good ==> queue_ok(self.store.map@, self.queue.set@),
                good ==> forall|i: int|
                    0 <= i < self.queue.set@.len() && old(self).dirty@.contains(
                        #[trigger] self.queue.set@[i].client,
                    ) && !seen.contains(self.queue.set@[i].client) ==> self.ends@.contains_key(
                        self.queue.set@[i].client,
                    ) && change_rel(self.ends@[self.queue.set@[i].client], self.queue.set@[i])
                        == Relation::Equal,
        {
            let ghost a = *client_id;
            let ghost m = self.store.map@;
            let ghost q = self.queue.set@;
            proof {
                assert(it.seq()[it.index() as int] == client_id);
                assert(it.seq().unref()[it.index() as int] == a);
                assert(it.seq().unref().contains(a));
                assert(old(self).dirty@.contains(a));
                assert(!seen.contains(a)) by {
                    if seen.contains(a) {
                        let j = choose|j: int| 0 <= j < seen.len() && seen[j] == a;
                        assert(it.seq()[j] == it.seq()[it.index() as int]);
                    }
                }
            }
            self.store.reset_cursor(client_id);
            let ghost m2 = self.store.map@;
            let end = match self.ends.get(client_id) {
                Some(end) => Some(*end),
                None => None,
            };
            match end {
                Some(e) => {
                    self.queue.remove_change(&e);
                    proof {
                        assert forall|x: ChangeId|
                            q0.contains(x) && !old(self).dirty@.contains(
                                x.client,
                            ) implies self.queue.set@.contains(x) by {
                            lemma_removed_keeps(q, e, x);
                        }
                    }
                    let ghost qm = self.queue.set@;
                    match self.store.last(client_id) {
                        Some(last) => {
                            let lc = last.change;
                            proof {
                                assert(m.contains_key(a));
                                assert(entries_ok(a, m[a].items@));
                                assert(m2[a].items@[m2[a].items@.len() - 1] == *last);
                            }
                            self.queue.insert(lc);
                            proof {
                                assert forall|x: ChangeId|
                                    q0.contains(x) && !old(self).dirty@.contains(
                                        x.client,
                                    ) implies self.queue.set@.contains(x) by {
                                    lemma_inserted_keeps(qm, lc, x);
                                }
                            }
                        },
                        None => {},
                    }
                },
                None => {},
            }
            proof {
                let old_seen = seen;
                seen = seen.push(a);
                assert(self.queue.set@ == rewound(q, end, last_of(m2, a)));
                assert(last_of(m2, a) == last_of(m0, a));
                if let Some(n) = last_of(m0, a) {
                    assert(m0.contains_key(a));
                    assert(entries_ok(a, m0[a].items@));
                    assert(m0[a].items@[m0[a].items@.len() - 1] == n);
                }
                assert forall|e: ChangeId| #[trigger] self.queue.set@.contains(e) implies q0.contains(e) || (
                seen.contains(e.client) && (last_of(m0, e.client) matches Some(n) && e == n.change)) by {
                    lemma_rewound_sub(q, end, last_of(m2, a), e);
                    if q.contains(e) {
                        if !q0.contains(e) {
                            let j = choose|j: int| 0 <= j < old_seen.len() && old_seen[j] == e.client;
                            assert(seen[j] == e.client);
                        }
                    } else {
                        assert(seen[old_seen.len() as int] == a);
                    }
                }
                assert forall|c: ClientId| #[trigger] seen.contains(c) && self.ends@.contains_key(c) implies (
                last_of(m0, c) matches Some(n) ==> overlaps(self.queue.set@, n.change)) by {
                    if let Some(n) = last_of(m0, c) {
                        if c == a {
                            lemma_inserted_overlaps(ClientChangeStore::removed(q, end->0), n.change);
                        } else {
                            let j = choose|j: int| 0 <= j < seen.len() && seen[j] == c;
                            assert(j < old_seen.len());
                            assert(old_seen[j] == c);
                            assert(old_seen.contains(c));
                            let y = choose|y: int| 0 <= y < q.len() && change_rel(q[y], n.change) == Relation::Equal;
                            let yy = q[y];
                            assert(q.contains(yy));
                            assert(m0.contains_key(c));
                            assert(entries_ok(c, m0[c].items@));
                            assert(m0[c].items@[m0[c].items@.len() - 1] == n);
                            assert(yy.client == c);
                            if let Some(x) = end {
                                assert(self.ends@.contains_key(a) && x == self.ends@[a]);
                                lemma_removed_keeps(q, x, yy);
                                let mid = ClientChangeStore::removed(q, x);
                                if let Some(n2) = last_of(m2, a) {
                                    lemma_removed_chain(q, x);
                                    lemma_inserted_keeps(mid, n2.change, yy);
                                }
                            }
                            let t = self.queue.set@;
                            let k = choose|k: int| 0 <= k < t.len() && t[k] == yy;
                            assert(change_rel(t[k], n.change) == Relation::Equal);
                        }
                    }
                }
                assert forall|c: ClientId| #[trigger] m2.contains_key(c) implies entries_ok(
                    c,
                    m2[c].items@,
                ) by {
                    assert(m.contains_key(c));
                    assert(entries_ok(c, m[c].items@));
                }
                assert(forall|i: int, j: int| 0 <= i < j < q.len() ==> change_rel(#[trigger] q[i], #[trigger] q[j]) == Relation::Less);
                if good {
                    assert forall|i: int|
                        0 <= i < self.queue.set@.len() && old(self).dirty@.contains(
                            #[trigger] self.queue.set@[i].client,
                        ) && !seen.contains(self.queue.set@[i].client) implies self.ends@.contains_key(
                            self.queue.set@[i].client,
                        ) && change_rel(self.ends@[self.queue.set@[i].client], self.queue.set@[i])
                            == Relation::Equal by {
                        let y = self.queue.set@[i];
                        assert(y.client != a) by {
                            assert(seen[old_seen.len() as int] == a);
                        }
                        lemma_rewound_sub(q, end, last_of(m2, a), y);
                        if let Some(n) = last_of(m2, a) {
                            assert(entries_ok(a, m[a].items@));
                            assert(m2[a].items@[m2[a].items@.len() - 1] == n);
                        }
                        let j = choose|j: int| 0 <= j < q.len() && q[j] == y;
                        assert(!old_seen.contains(y.client)) by {
                            if old_seen.contains(y.client) {
                                let k = choose|k: int| 0 <= k < old_seen.len() && old_seen[k] == y.client;
                                assert(seen[k] == y.client);
                            }
                        }
                        assert(old(self).dirty@.contains(q[j].client));
                    }
                    lemma_rewind(m, m2, q, a, end);
                }
                assert forall|c: ClientId| #[trigger] m0.contains_key(c) implies if seen.contains(c) {
                    moved(m0[c], self.store.map@[c], m0[c].items@.len() as int)
                } else {
                    self.store.map@[c] == m0[c]
                } by {
                    if c != a {
                        assert(seen.contains(c) == old_seen.contains(c)) by {
                            if seen.contains(c) {
                                let j = choose|j: int| 0 <= j < seen.len() && seen[j] == c;
                                assert(old_seen[j] == c);
                            }
                            if old_seen.contains(c) {
                                let j = choose|j: int| 0 <= j < old_seen.len() && old_seen[j] == c;
                                assert(seen[j] == c);
                            }
                        }
                    } else {
                        assert(seen[old_seen.len() as int] == c);
                    }
                }
                assert forall|v: ClientId| #[trigger] old(self).dirty@.contains(v) implies seen.contains(v)
                    || exists|j: int| it.index() + 1 <= j < it.seq().len() && *it.seq()[j] == v by {
                    if !old_seen.contains(v) {
                        let j = choose|j: int| it.index() <= j < it.seq().len() && *it.seq()[j] == v;
                        if j == it.index() {
                            assert(seen[old_seen.len() as int] == v);
                        } else {
                            assert(it.index() + 1 <= j < it.seq().len() && *it.seq()[j] == v);
                        }
                    } else {
                        let j = choose|j: int| 0 <= j < old_seen.len() && old_seen[j] == v;
                        assert(seen[j] == v);
                    }
                }
                assert(self.store.map@.dom() =~= m0.dom());
            }
        }
        proof {
            assert forall|c: ClientId| #[trigger] m0.contains_key(c) implies (seen.contains(c)
                <==> old(self).dirty@.contains(c)) by {
                if old(self).dirty@.contains(c) {
                    assert(seen.contains(c));
                }
                if seen.contains(c) {
                    let j = choose|j: int| 0 <= j < seen.len() && seen[j] == c;
                    assert(old(self).dirty@.contains(seen[j]));
                }
            }
        }
    }
}


impl ChangeDag {
    /// Takes changes back, one by one, until none is queued, and returns them in the reverse
    /// of the order in which they were taken back: every change queued at the start comes
    /// back, the last one queued at the start comes last, and each change taken back moves a
    /// cursor back.
    pub fn sort_changes(&mut self) -> (r: Vec<ChangeId>)
        requires
            old(self).wf(),
        ensures
            final(self).wf(),
            r@ == undo_run(dag_view(old(self)), cursor_total(old(self).store.map@) + 1).reverse(),
            final(self).queue.set@.len() == 0,
            r@.len() + cursor_total(final(self).store.map@) <= cursor_total(old(self).store.map@),
            forall|e: ChangeId| #[trigger] old(self).queue.set@.contains(e) ==> r@.contains(e),
            old(self).queue.set@.len() > 0 ==> r@.len() > 0 && r@[r@.len() - 1]
                == old(self).queue.set@.last(),
    {
        let mut sorted: Vec<ChangeId> = Vec::new();
        let ghost fuel: nat = cursor_total(old(self).store.map@) + 1;
        let ghost run = undo_run(dag_view(old(self)), fuel);
        proof {
            assert(sorted@ + run =~= run);
        }
        loop
            invariant_except_break
                self.wf(),
                fuel == cursor_total(old(self).store.map@) + 1,
                run == undo_run(dag_view(old(self)), fuel),
                sorted@ + undo_run(dag_view(self), (fuel - sorted@.len()) as nat) == run,
                sorted@.len() + cursor_total(self.store.map@) <= cursor_total(old(self).store.map@),
                forall|e: ChangeId|
                    #[trigger] old(self).queue.set@.contains(e) ==> self.queue.set@.contains(e)
                        || sorted@.contains(e),
                sorted@.len() == 0 ==> self.queue.set@ == old(self).queue.set@,
                sorted@.len() > 0 ==> old(self).queue.set@.len() > 0 && sorted@[0]
                    == old(self).queue.set@.last(),
            ensures
                self.wf(),
                self.queue.set@.len() == 0,
                sorted@ == run,
                sorted@.len() + cursor_total(self.store.map@) <= cursor_total(old(self).store.map@),
                forall|e: ChangeId| #[trigger] old(self).queue.set@.contains(e) ==> sorted@.contains(e),
                old(self).queue.set@.len() > 0 ==> sorted@.len() > 0 && sorted@[0]
                    == old(self).queue.set@.last(),
            decreases cursor_total(self.store.map@),
        {
            let ghost m = self.store.map@;
            let ghost q = self.queue.set@;
            let ghost before = sorted@;
            let ghost v0 = dag_view(self);
            let ghost f = (fuel - sorted@.len()) as nat;
            match self.undo() {
                Some(c) => {
                    proof {
                        assert(undo_run(v0, f) == seq![c] + undo_run(
                            dag_view(self),
                            (f - 1) as nat,
                        ));
                        let x = q.last();
                        assert(q[q.len() - 1] == x);
                        assert(queued_ok(m, x));
                        let s = m[x.client];
                        lemma_back_over_lt(s.items@, s.cursor as int);
                        lemma_cursor_sum_update(
                            m,
                            x.client,
                            self.store.map@[x.client],
                            0x1_0000_0000,
                        );
                        assert(m.insert(x.client, self.store.map@[x.client]) == self.store.map@);
                    }
                    sorted.push(c);
                    proof {
                        assert(sorted@ =~= before.push(c));
                        assert(sorted@ + undo_run(dag_view(self), (fuel - sorted@.len()) as nat)
                            =~= before + undo_run(v0, f));
                        assert forall|e: ChangeId| #[trigger] old(self).queue.set@.contains(e) implies self.queue.set@.contains(e)
                            || sorted@.contains(e) by {
                            if before.contains(e) {
                                let k = choose|k: int| 0 <= k < before.len() && before[k] == e;
                                assert(sorted@[k] == e);
                            } else if e == q.last() {
                                assert(sorted@[before.len() as int] == e);
                            } else {
                                assert(q.contains(e));
                                let k = choose|k: int| 0 <= k < q.len() && q[k] == e;
                                assert(k != q.len() - 1);
                                assert(q.drop_last()[k] == e);
                                assert(q.drop_last().contains(e));
                            }
                        }
                    }
                },
                None => {
                    proof {
                        assert(undo_run(v0, f) =~= Seq::<ChangeId>::empty());
                        assert(sorted@ =~= sorted@ + undo_run(v0, f));
                        assert forall|e: ChangeId| #[trigger] old(self).queue.set@.contains(e) implies sorted@.contains(e) by {
                            assert(!self.queue.set@.contains(e));
                        }
                    }
                    break;
                },
            }
        }
        let mut out: Vec<ChangeId> = Vec::new();
        let mut k = sorted.len();
        while k > 0
            invariant
                k <= sorted@.len(),
                out@ == sorted@.subrange(k as int, sorted@.len() as int).reverse(),
            decreases k,
        {
            k = k - 1;
            out.push(sorted[k]);
            proof {
                assert(out@ =~= sorted@.subrange(k as int, sorted@.len() as int).reverse());
            }
        }
        proof {
            assert(sorted@.subrange(0, sorted@.len() as int) =~= sorted@);
            assert(out@ =~= run.reverse());
            assert forall|e: ChangeId| #[trigger] old(self).queue.set@.contains(e) implies out@.contains(e) by {
                let k = choose|k: int| 0 <= k < sorted@.len() && sorted@[k] == e;
                assert(out@[sorted@.len() - 1 - k] == e);
            }
            if sorted@.len() > 0 {
                assert(out@[out@.len() - 1] == sorted@[0]);
            }
        }
        out
    }
}

/// The nodes of one client, in the order they come.
pub open spec fn client_nodes(ns: Seq<ChangeNode>, c: ClientId) -> Seq<ChangeNode>
    decreases ns.len(),
{
    if ns.len() == 0 {
        Seq::empty()
    } else {
        client_nodes(ns.drop_last(), c) + if ns.last().change.client == c {
            seq![ns.last()]
        } else {
            Seq::empty()
        }
    }
}

/// Every node is a well-formed change, and the changes of each client come one after the
/// other, each ending before the next starts.
pub open spec fn ordered(ns: Seq<ChangeNode>) -> bool {
    &&& forall|i: int| 0 <= i < ns.len() ==> (#[trigger] ns[i]).change.start <= ns[i].change.end
    &&& forall|i: int, j: int|
        0 <= i < j < ns.len() && (#[trigger] ns[i]).change.client == (#[trigger] ns[j]).change.client
            ==> change_rel(ns[i].change, ns[j].change) == Relation::Less
}

/// The parents of all the nodes, one node after the other.
pub open spec fn all_parents(ns: Seq<ChangeNode>) -> Seq<ChangeId>
    decreases ns.len(),
{
    if ns.len() == 0 {
        Seq::empty()
    } else {
        all_parents(ns.drop_last()) + ns.last().parents@
    }
}

/// How many changes of the run have the key `k`.
pub open spec fn key_count(s: Seq<ChangeId>, k: u64) -> nat
    decreases s.len(),
{
    if s.len() == 0 {
        0
    } else {
        key_count(s.drop_last(), k) + if id_key(s.last().spec_id()) == k {
            1nat
        } else {
            0nat
        }
    }
}

/// The counts of children that adding the parents of a run to no counts gives: each key
/// named in the run, with the number of times it is named, twice.
pub open spec fn counted(s: Seq<ChangeId>) -> Map<u64, (u32, u32)> {
    Map::new(
        |k: u64| key_count(s, k) > 0,
        |k: u64| (key_count(s, k) as u32, key_count(s, k) as u32),
    )
}

/// The stacks that adding the nodes to an empty DAG gives: each client's nodes, in order,
/// with the cursor past them all.
pub open spec fn stores_of(ns: Seq<ChangeNode>) -> Map<ClientId, (Seq<ChangeNode>, int)> {
    Map::new(
        |c: ClientId| client_nodes(ns, c).len() > 0,
        |c: ClientId| (client_nodes(ns, c), client_nodes(ns, c).len() as int),
    )
}

/// The nodes of a client are nodes of the run, of that client.
pub proof fn lemma_client_nodes_from(ns: Seq<ChangeNode>, c: ClientId)
    ensures
        forall|j: int|
            0 <= j < client_nodes(ns, c).len() ==> (#[trigger] client_nodes(ns, c)[j]).change.client
                == c && ns.contains(client_nodes(ns, c)[j]),
    decreases ns.len(),
{
    if ns.len() > 0 {
        let p = ns.drop_last();
        lemma_client_nodes_from(p, c);
        assert forall|j: int| 0 <= j < client_nodes(ns, c).len() implies (#[trigger] client_nodes(
            ns,
            c,
        )[j]).change.client == c && ns.contains(client_nodes(ns, c)[j]) by {
            if j < client_nodes(p, c).len() {
                assert(client_nodes(ns, c)[j] == client_nodes(p, c)[j]);
                let i = choose|i: int| 0 <= i < p.len() && p[i] == client_nodes(p, c)[j];
                assert(ns[i] == p[i]);
            } else {
                assert(client_nodes(ns, c)[j] == ns.last());
                assert(ns[ns.len() - 1] == ns.last());
            }
        }
    }
}

/// Adding the nodes of an ordered run one after the other to an empty DAG stacks each
/// client's nodes in order.
pub proof fn lemma_built_stores(ns: Seq<ChangeNode>)
    requires
        ordered(ns),
    ensures
        built(ns).0 == stores_of(ns),
    decreases ns.len(),
{
    if ns.len() == 0 {
        assert(built(ns).0 =~= stores_of(ns));
    } else {
        let p = ns.drop_last();
        let x = ns.last();
        let c = x.change.client;
        assert(ordered(p)) by {
            assert forall|i: int, j: int|
                0 <= i < j < p.len() && (#[trigger] p[i]).change.client == (#[trigger] p[j]).change.client
                    implies change_rel(p[i].change, p[j].change) == Relation::Less by {
                assert(p[i] == ns[i] && p[j] == ns[j]);
            }
            assert forall|i: int| 0 <= i < p.len() implies (#[trigger] p[i]).change.start
                <= p[i].change.end by {
                assert(p[i] == ns[i]);
            }
        }
        lemma_built_stores(p);
        let cn = client_nodes(p, c);
        if cn.len() > 0 {
            lemma_client_nodes_from(p, c);
            let y = cn.last();
            assert(cn[cn.len() - 1] == y);
            let i = choose|i: int| 0 <= i < p.len() && p[i] == y;
            assert(ns[i] == y);
            assert(ns[ns.len() - 1] == x);
            assert(change_rel(ns[i].change, ns[ns.len() - 1].change) == Relation::Less);
            assert(y.spec_id().clock != x.spec_id().clock);
        }
        assert(built(ns).0 =~= stores_of(ns)) by {
            assert forall|d: ClientId| d != c implies client_nodes(ns, d) == client_nodes(p, d) by {
                assert(client_nodes(ns, d) =~= client_nodes(p, d));
            }
            assert(client_nodes(ns, c) =~= cn.push(x));
        }
    }
}

/// Adding the parents of one run, then of another, adds those of the two together.
pub proof fn lemma_added_all_concat(m: Map<u64, (u32, u32)>, a: Seq<ChangeId>, b: Seq<ChangeId>)
    ensures
        added_all(m, a + b) == added_all(added_all(m, a), b),
    decreases b.len(),
{
    if b.len() == 0 {
        assert(a + b =~= a);
    } else {
        lemma_added_all_concat(m, a, b.drop_last());
        assert((a + b).drop_last() =~= a + b.drop_last());
        assert((a + b).last() == b.last());
    }
}

/// Counting keys of two runs together adds their counts.
pub proof fn lemma_key_count_concat(a: Seq<ChangeId>, b: Seq<ChangeId>, k: u64)
    ensures
        key_count(a + b, k) == key_count(a, k) + key_count(b, k),
    decreases b.len(),
{
    if b.len() == 0 {
        assert(a + b =~= a);
    } else {
        lemma_key_count_concat(a, b.drop_last(), k);
        assert((a + b).drop_last() =~= a + b.drop_last());
        assert((a + b).last() == b.last());
    }
}

/// Adding the nodes to an empty DAG counts the parents of all of them in turn.
pub proof fn lemma_built_children(ns: Seq<ChangeNode>)
    ensures
        built(ns).1 == added_all(Map::empty(), all_parents(ns)),
    decreases ns.len(),
{
    if ns.len() > 0 {
        lemma_built_children(ns.drop_last());
        lemma_added_all_concat(Map::empty(), all_parents(ns.drop_last()), ns.last().parents@);
    }
}

/// With no key named `u32::MAX` times or more, adding the parents of a run to no counts
/// gives each key the number of times it is named.
pub proof fn lemma_counted(s: Seq<ChangeId>)
    requires
        forall|k: u64| key_count(s, k) < u32::MAX,
    ensures
        added_all(Map::empty(), s) == counted(s),
    decreases s.len(),
{
    if s.len() == 0 {
        assert(added_all(Map::empty(), s) =~= counted(s));
    } else {
        let t = s.drop_last();
        assert forall|k: u64| key_count(t, k) < u32::MAX by {
            assert(key_count(s, k) >= key_count(t, k));
        }
        lemma_counted(t);
        let k0 = id_key(s.last().spec_id());
        assert(added_all(Map::empty(), s) =~= counted(s));
    }
}

/// The parents of a run with one node taken out, and that node's parents, count the keys
/// of the parents of the whole run.
pub proof fn lemma_key_count_remove(ns: Seq<ChangeNode>, i: int, k: u64)
    requires
        0 <= i < ns.len(),
    ensures
        key_count(all_parents(ns), k) == key_count(all_parents(ns.remove(i)), k) + key_count(
            ns[i].parents@,
            k,
        ),
    decreases ns.len(),
{
    let p = ns.drop_last();
    lemma_key_count_concat(all_parents(p), ns.last().parents@, k);
    if i == ns.len() - 1 {
        assert(ns.remove(i) =~= p);
    } else {
        lemma_key_count_remove(p, i, k);
        let r = ns.remove(i);
        assert(r.drop_last() =~= p.remove(i));
        assert(r.last() == ns.last());
        lemma_key_count_concat(all_parents(r.drop_last()), r.last().parents@, k);
        assert(p[i] == ns[i]);
    }
}

/// Runs holding the same nodes name each key as parent equally often.
pub proof fn lemma_key_count_perm(a: Seq<ChangeNode>, b: Seq<ChangeNode>, k: u64)
    requires
        a.to_multiset() == b.to_multiset(),
    ensures
        key_count(all_parents(a), k) == key_count(all_parents(b), k),
    decreases a.len(),
{
    a.to_multiset_ensures();
    b.to_multiset_ensures();
    if a.len() == 0 {
        assert(b.len() == 0);
    } else {
        let x = a.last();
        assert(a[a.len() - 1] == x);
        assert(a.contains(x));
        assert(b.to_multiset().count(x) > 0);
        assert(b.contains(x));
        let j = choose|j: int| 0 <= j < b.len() && b[j] == x;
        vstd::seq_lib::to_multiset_remove(a, a.len() - 1);
        vstd::seq_lib::to_multiset_remove(b, j);
        assert(a.remove(a.len() - 1) =~= a.drop_last());
        lemma_key_count_perm(a.drop_last(), b.remove(j), k);
        lemma_key_count_remove(a, a.len() - 1, k);
        lemma_key_count_remove(b, j, k);
    }
}


/// In an ordered run of well-formed changes, no change comes twice.
pub proof fn lemma_chain_distinct(q: Seq<ChangeId>)
    requires
        chain(q),
        ranges_ok(q),
    ensures
        forall|i: int, j: int| 0 <= i < q.len() && 0 <= j < q.len() && i != j ==> q[i] != q[j],
{
    assert forall|i: int, j: int| 0 <= i < q.len() && 0 <= j < q.len() && i != j implies q[i] != q[j] by {
        if i < j {
            assert(change_rel(q[i], q[j]) == Relation::Less);
        } else {
            assert(change_rel(q[j], q[i]) == Relation::Less);
        }
    }
}

/// Taking out a queued change of an ordered run keeps every other change and only those.
pub proof fn lemma_removed_set(q: Seq<ChangeId>, y: ChangeId)
    requires
        chain(q),
        ranges_ok(q),
        y.start <= y.end,
        q.contains(y),
    ensures
        forall|e: ChangeId|
            ClientChangeStore::removed(q, y).contains(e) <==> (q.contains(e) && e != y),
{
    lemma_below(q, y);
    lemma_chain_distinct(q);
    let p = below(q, y);
    let i = choose|i: int| 0 <= i < q.len() && q[i] == y;
    assert(change_rel(y, y) == Relation::Equal);
    assert(i >= p);
    if i > p {
        assert(change_rel(q[p], q[i]) == Relation::Less);
    }
    assert(i == p);
    let r = q.remove(p);
    assert(ClientChangeStore::removed(q, y) == r);
    assert forall|e: ChangeId| r.contains(e) <==> (q.contains(e) && e != y) by {
        if r.contains(e) {
            let k = choose|k: int| 0 <= k < r.len() && r[k] == e;
            if k < p {
                assert(q[k] == e);
                assert(k != i);
            } else {
                assert(q[k + 1] == e);
                assert(k + 1 != i);
            }
        }
        if q.contains(e) && e != y {
            let k = choose|k: int| 0 <= k < q.len() && q[k] == e;
            assert(k != p);
            if k < p {
                assert(r[k] == e);
            } else {
                assert(r[k - 1] == e);
            }
        }
    }
}

/// Queueing a well-formed change that no queued change overlaps keeps the run ordered, and
/// adds that change and nothing else.
pub proof fn lemma_inserted_set(q: Seq<ChangeId>, x: ChangeId)
    requires
        chain(q),
        ranges_ok(q),
        x.start <= x.end,
        !overlaps(q, x),
    ensures
        chain(ClientChangeStore::inserted(q, x)),
        ranges_ok(ClientChangeStore::inserted(q, x)),
        forall|e: ChangeId|
            ClientChangeStore::inserted(q, x).contains(e) <==> (q.contains(e) || e == x),
{
    lemma_below(q, x);
    let p = below(q, x);
    let t = q.insert(p, x);
    assert(ClientChangeStore::inserted(q, x) == t);
    assert forall|i: int| p <= i < q.len() implies change_rel(x, #[trigger] q[i]) == Relation::Less by {
        assert(change_rel(q[i], x) != Relation::Less);
        if change_rel(q[i], x) == Relation::Equal {
            assert(overlaps(q, x));
        }
        lemma_change_order_flip(x, q[i]);
    }
    assert forall|i: int, j: int| 0 <= i < j < t.len() implies change_rel(
        #[trigger] t[i],
        #[trigger] t[j],
    ) == Relation::Less by {
        if j < p {
            assert(t[i] == q[i] && t[j] == q[j]);
        } else if j == p {
            assert(t[i] == q[i] && t[j] == x);
        } else if i == p {
            assert(t[i] == x && t[j] == q[j - 1]);
        } else if i < p {
            assert(t[i] == q[i] && t[j] == q[j - 1]);
        } else {
            assert(t[i] == q[i - 1] && t[j] == q[j - 1]);
        }
    }
    assert forall|i: int| 0 <= i < t.len() implies (#[trigger] t[i]).start <= t[i].end by {
        if i < p {
            assert(t[i] == q[i]);
        } else if i > p {
            assert(t[i] == q[i - 1]);
        }
    }
    assert forall|e: ChangeId| t.contains(e) <==> (q.contains(e) || e == x) by {
        if t.contains(e) {
            let k = choose|k: int| 0 <= k < t.len() && t[k] == e;
            if k < p {
                assert(q[k] == e);
            } else if k > p {
                assert(q[k - 1] == e);
            }
        }
        if q.contains(e) {
            let k = choose|k: int| 0 <= k < q.len() && q[k] == e;
            if k < p {
                assert(t[k] == e);
            } else {
                assert(t[k + 1] == e);
            }
        }
        if e == x {
            assert(t[p] == x);
        }
    }
}

/// The queue holds the change of each client's last node, in order.
pub open spec fn last_changes(ns: Seq<ChangeNode>, q: Seq<ChangeId>) -> bool {
    &&& chain(q)
    &&& ranges_ok(q)
    &&& forall|e: ChangeId|
        q.contains(e) <==> (client_nodes(ns, e.client).len() > 0 && client_nodes(
            ns,
            e.client,
        ).last().change == e)
}

/// An ordered run is ordered in each of its prefixes.
pub proof fn lemma_ordered_prefix(ns: Seq<ChangeNode>)
    requires
        ordered(ns),
        ns.len() > 0,
    ensures
        ordered(ns.drop_last()),
{
    let p = ns.drop_last();
    assert forall|i: int, j: int|
        0 <= i < j < p.len() && (#[trigger] p[i]).change.client == (#[trigger] p[j]).change.client
            implies change_rel(p[i].change, p[j].change) == Relation::Less by {
        assert(p[i] == ns[i] && p[j] == ns[j]);
    }
    assert forall|i: int| 0 <= i < p.len() implies (#[trigger] p[i]).change.start
        <= p[i].change.end by {
        assert(p[i] == ns[i]);
    }
}

/// Adding the nodes of an ordered run one after the other to an empty DAG queues exactly the
/// change of each client's last node, in order.
pub proof fn lemma_built_queue(ns: Seq<ChangeNode>)
    requires
        ordered(ns),
    ensures
        last_changes(ns, built(ns).2),
    decreases ns.len(),
{
    if ns.len() == 0 {
        assert(last_changes(ns, built(ns).2));
    } else {
        let p = ns.drop_last();
        let x = ns.last();
        let c = x.change.client;
        lemma_ordered_prefix(ns);
        lemma_built_queue(p);
        lemma_built_stores(p);
        lemma_client_nodes_from(p, c);
        assert(ns[ns.len() - 1] == x);
        let q = built(p).2;
        let cn = client_nodes(p, c);
        let mid = if cn.len() > 0 {
            ClientChangeStore::removed(q, cn.last().change)
        } else {
            q
        };
        assert(built(ns).2 == ClientChangeStore::inserted(mid, x.change));
        if cn.len() > 0 {
            let y = cn.last();
            assert(cn[cn.len() - 1] == y);
            let i = choose|i: int| 0 <= i < p.len() && p[i] == y;
            assert(p[i] == ns[i]);
            assert(q.contains(y.change));
            lemma_removed_set(q, y.change);
            lemma_removed_chain(q, y.change);
        }
        assert forall|e: ChangeId| mid.contains(e) <==> (q.contains(e) && e.client != c) by {
            if q.contains(e) && e.client == c {
                assert(e == cn.last().change);
            }
        }
        assert(!overlaps(mid, x.change)) by {
            if overlaps(mid, x.change) {
                let i = choose|i: int|
                    0 <= i < mid.len() && change_rel(mid[i], x.change) == Relation::Equal;
                assert(mid.contains(mid[i]));
            }
        }
        lemma_inserted_set(mid, x.change);
        assert forall|d: ClientId| d != c implies client_nodes(ns, d) == client_nodes(p, d) by {
            assert(client_nodes(ns, d) =~= client_nodes(p, d));
        }
        assert(client_nodes(ns, c) =~= cn.push(x));
        let q2 = built(ns).2;
        assert forall|e: ChangeId|
            q2.contains(e) <==> (client_nodes(ns, e.client).len() > 0 && client_nodes(
                ns,
                e.client,
            ).last().change == e) by {
            assert(q2.contains(e) <==> (mid.contains(e) || e == x.change));
            if e.client != c {
                assert(client_nodes(ns, e.client) == client_nodes(p, e.client));
                assert(e != x.change);
                assert(mid.contains(e) <==> q.contains(e));
            } else {
                assert(!mid.contains(e));
                assert(client_nodes(ns, c).last() == x);
            }
        }
    }
}

/// Two ordered runs of well-formed changes holding the same changes are the same run.
pub proof fn lemma_chain_unique(a: Seq<ChangeId>, b: Seq<ChangeId>)
    requires
        chain(a),
        ranges_ok(a),
        chain(b),
        ranges_ok(b),
        forall|e: ChangeId| a.contains(e) <==> b.contains(e),
    ensures
        a == b,
    decreases a.len(),
{
    if a.len() == 0 {
        if b.len() > 0 {
            assert(b.contains(b[0]));
        }
        assert(a =~= b);
    } else {
        assert(a.contains(a[0]));
        assert(b.len() > 0);
        let x = a.last();
        let y = b.last();
        assert(a[a.len() - 1] == x && b[b.len() - 1] == y);
        assert(a.contains(x) && b.contains(y));
        lemma_chain_distinct(a);
        lemma_chain_distinct(b);
        if x != y {
            let j = choose|j: int| 0 <= j < b.len() && b[j] == x;
            let i = choose|i: int| 0 <= i < a.len() && a[i] == y;
            assert(change_rel(b[j], b[b.len() - 1]) == Relation::Less);
            assert(change_rel(a[i], a[a.len() - 1]) == Relation::Less);
            lemma_before_trans(x, y, x);
            assert(change_rel(x, x) == Relation::Equal);
        }
        assert(x == y);
        let a2 = a.drop_last();
        let b2 = b.drop_last();
        assert forall|e: ChangeId| a2.contains(e) <==> b2.contains(e) by {
            if a2.contains(e) {
                let k = choose|k: int| 0 <= k < a2.len() && a2[k] == e;
                assert(a[k] == e);
                assert(e != x);
                assert(a.contains(e));
                assert(b.contains(e));
                let m = choose|m: int| 0 <= m < b.len() && b[m] == e;
                assert(m != b.len() - 1);
                assert(b2[m] == e);
            }
            if b2.contains(e) {
                let k = choose|k: int| 0 <= k < b2.len() && b2[k] == e;
                assert(b[k] == e);
                assert(e != y);
                assert(b.contains(e));
                assert(a.contains(e));
                let m = choose|m: int| 0 <= m < a.len() && a[m] == e;
                assert(m != a.len() - 1);
                assert(a2[m] == e);
            }
        }
        assert(chain(a2) && ranges_ok(a2)) by {
            assert forall|i: int, j: int| 0 <= i < j < a2.len() implies change_rel(
                #[trigger] a2[i],
                #[trigger] a2[j],
            ) == Relation::Less by {
                assert(a2[i] == a[i] && a2[j] == a[j]);
            }
            assert forall|i: int| 0 <= i < a2.len() implies (#[trigger] a2[i]).start <= a2[i].end by {
                assert(a2[i] == a[i]);
            }
        }
        assert(chain(b2) && ranges_ok(b2)) by {
            assert forall|i: int, j: int| 0 <= i < j < b2.len() implies change_rel(
                #[trigger] b2[i],
                #[trigger] b2[j],
            ) == Relation::Less by {
                assert(b2[i] == b[i] && b2[j] == b[j]);
            }
            assert forall|i: int| 0 <= i < b2.len() implies (#[trigger] b2[i]).start <= b2[i].end by {
                assert(b2[i] == b[i]);
            }
        }
        lemma_chain_unique(a2, b2);
        assert(a =~= a2.push(x));
        assert(b =~= b2.push(y));
    }
}

/// Convergence law: adding the changes of one DAG to an empty DAG in two orders that both
/// keep each client's changes in the order of their clocks (as every topological order does
/// when each change of a client depends on the client's previous change) leaves the same
/// stacks, counts and queue; so taking changes back, and sorting them, gives the same result
/// whichever of the two orders the changes were added in.
pub proof fn lemma_insertion_order_converges(ns1: Seq<ChangeNode>, ns2: Seq<ChangeNode>)
    requires
        ns1.to_multiset() == ns2.to_multiset(),
        forall|c: ClientId| #[trigger] client_nodes(ns1, c) == client_nodes(ns2, c),
        ordered(ns1),
        ordered(ns2),
        forall|k: u64| key_count(all_parents(ns1), k) < u32::MAX,
    ensures
        built(ns1) == built(ns2),
        forall|fuel: nat|
            #[trigger] undo_run(built(ns1), fuel).reverse() == undo_run(built(ns2), fuel).reverse(),
{
    lemma_built_stores(ns1);
    lemma_built_stores(ns2);
    assert(stores_of(ns1) =~= stores_of(ns2));
    lemma_built_children(ns1);
    lemma_built_children(ns2);
    assert forall|k: u64| key_count(all_parents(ns2), k) < u32::MAX by {
        lemma_key_count_perm(ns1, ns2, k);
    }
    lemma_counted(all_parents(ns1));
    lemma_counted(all_parents(ns2));
    assert forall|k: u64| key_count(all_parents(ns1), k) == key_count(all_parents(ns2), k) by {
        lemma_key_count_perm(ns1, ns2, k);
    }
    assert(counted(all_parents(ns1)) =~= counted(all_parents(ns2)));
    lemma_built_queue(ns1);
    lemma_built_queue(ns2);
    lemma_chain_unique(built(ns1).2, built(ns2).2);
}

/// Two DAGs whose stacks, counts and queue are the same sort their changes alike: the
/// cursors sum to the same total, so `sort_changes` runs the same steps on both.
pub proof fn lemma_same_view_same_sort(d1: ChangeDag, d2: ChangeDag)
    requires
        dag_view(&d1) == dag_view(&d2),
    ensures
        cursor_total(d1.store.map@) == cursor_total(d2.store.map@),
        undo_run(dag_view(&d1), cursor_total(d1.store.map@) + 1).reverse() == undo_run(
            dag_view(&d2),
            cursor_total(d2.store.map@) + 1,
        ).reverse(),
{
    lemma_cursor_sum_view(d1.store.map@, d2.store.map@, 0x1_0000_0000);
}

/// Stacks with the same entries and cursors have the same cursor sums.
pub proof fn lemma_cursor_sum_view(
    m1: Map<ClientId, ItemStackStore<ChangeNode>>,
    m2: Map<ClientId, ItemStackStore<ChangeNode>>,
    n: nat,
)
    requires
        stores_view(m1) == stores_view(m2),
    ensures
        cursor_sum(m1, n) == cursor_sum(m2, n),
    decreases n,
{
    if n > 0 {
        lemma_cursor_sum_view(m1, m2, (n - 1) as nat);
        let k = (n - 1) as u32;
        assert(stores_view(m1).contains_key(k) == m1.contains_key(k));
        assert(stores_view(m2).contains_key(k) == m2.contains_key(k));
        if m1.contains_key(k) {
            assert(stores_view(m1)[k].1 == m1[k].cursor as int);
            assert(stores_view(m2)[k].1 == m2[k].cursor as int);
        }
    }
}

/// Convergence of sorting: two DAGs built from an empty DAG by adding the changes of one DAG
/// in two orders that keep each client's changes in the order of their clocks give the same
/// result to `sort_changes`, the reverse of what taking all their changes back gives.
pub proof fn lemma_sorts_converge(d1: ChangeDag, d2: ChangeDag, ns1: Seq<ChangeNode>, ns2: Seq<ChangeNode>)
    requires
        dag_view(&d1) == built(ns1),
        dag_view(&d2) == built(ns2),
        ns1.to_multiset() == ns2.to_multiset(),
        forall|c: ClientId| #[trigger] client_nodes(ns1, c) == client_nodes(ns2, c),
        ordered(ns1),
        ordered(ns2),
        forall|k: u64| key_count(all_parents(ns1), k) < u32::MAX,
    ensures
        undo_run(dag_view(&d1), cursor_total(d1.store.map@) + 1).reverse() == undo_run(
            dag_view(&d2),
            cursor_total(d2.store.map@) + 1,
        ).reverse(),
{
    lemma_insertion_order_converges(ns1, ns2);
    lemma_same_view_same_sort(d1, d2);
}

} // verus!
