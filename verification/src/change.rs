pub mod codec;
pub mod sort;

use crate::id::{ClientId, ClockTick, Id, IdComp, IdRange, Relation, WithId};
use std::cmp::Ordering;
use std::collections::HashMap;
use vstd::prelude::*;

verus! {

/// A change: the inclusive range `[start, end]` of clock ticks that one client used in
/// one transaction.
#[derive(Debug, Copy, Clone, Default, PartialEq, Eq, Hash)]
pub struct ChangeId {
    pub client: ClientId,
    pub start: ClockTick,
    pub end: ClockTick,
}

impl DeepView for ChangeId {
    type V = ChangeId;

    open spec fn deep_view(&self) -> ChangeId {
        *self
    }
}

/// The order of two changes: by client first; on one client, a change is before another
/// when it ends before the other starts, and overlapping changes are equal.
pub open spec fn change_rel(a: ChangeId, b: ChangeId) -> Relation {
    if a.client == b.client {
        if a.end < b.start {
            Relation::Less
        } else if a.start > b.end {
            Relation::Greater
        } else {
            Relation::Equal
        }
    } else if a.client < b.client {
        Relation::Less
    } else {
        Relation::Greater
    }
}

/// The standard ordering that a relation stands for.
pub open spec fn ordering_of(r: Relation) -> Ordering {
    match r {
        Relation::Less => Ordering::Less,
        Relation::Equal => Ordering::Equal,
        Relation::Greater => Ordering::Greater,
    }
}

/// Where a change lies relative to an id: by client first; on one client, after the id
/// when it starts after the clock, before it when it ends before the clock, else it
/// covers it.
pub open spec fn change_relation(c: ChangeId, id: Id) -> Relation {
    if c.client == id.client {
        if id.clock < c.start {
            Relation::Greater
        } else if c.end < id.clock {
            Relation::Less
        } else {
            Relation::Equal
        }
    } else if c.client < id.client {
        Relation::Less
    } else {
        Relation::Greater
    }
}

impl ChangeId {
    pub fn new(client: ClientId, start: ClockTick, end: ClockTick) -> (r: Self)
        ensures
            r.client == client,
            r.start == start,
            r.end == end,
    {
        ChangeId { client, start, end }
    }

    /// The half-open clock range `start..end` of the change.
    pub fn range(&self) -> (r: std::ops::Range<ClockTick>)
        ensures
            r.start == self.start,
            r.end == self.end,
    {
        std::ops::Range { start: self.start, end: self.end }
    }

    /// Orders two changes, see `change_rel`.
    #[inline]
    pub fn comp(&self, other: &Self) -> (r: Ordering)
        ensures
            r == ordering_of(change_rel(*self, *other)),
    {
        match self.relation(other) {
            Relation::Less => Ordering::Less,
            Relation::Equal => Ordering::Equal,
            Relation::Greater => Ordering::Greater,
        }
    }

    /// Places two changes relative to each other, see `change_rel`.
    pub fn relation(&self, other: &Self) -> (r: Relation)
        ensures
            r == change_rel(*self, *other),
    {
        if self.client == other.client {
            if self.end < other.start {
                Relation::Less
            } else if self.start > other.end {
                Relation::Greater
            } else {
                Relation::Equal
            }
        } else if self.client < other.client {
            Relation::Less
        } else {
            Relation::Greater
        }
    }

    /// Whether the change covers the id.
    pub fn contains(&self, id: &Id) -> (r: bool)
        ensures
            r == (self.client == id.client && self.start <= id.clock && id.clock <= self.end),
    {
        self.client == id.client && self.start <= id.clock && id.clock <= self.end
    }

    /// The single-tick change of an id.
    pub open spec fn spec_from_id(id: Id) -> ChangeId {
        ChangeId { client: id.client, start: id.clock, end: id.clock }
    }

    /// The single-tick change of an id.
    pub fn from_id(id: Id) -> (r: ChangeId)
        ensures
            r == ChangeId::spec_from_id(id),
    {
        ChangeId::new(id.client, id.clock, id.clock)
    }

    /// The change covering a range.
    pub fn from_range(id: IdRange) -> (r: ChangeId)
        ensures
            r.client == id.client,
            r.start == id.start,
            r.end == id.end,
    {
        ChangeId::new(id.client, id.start, id.end)
    }

    /// The client and the first tick of the change.
    pub fn tuple(&self) -> (r: (ClientId, ClockTick))
        ensures
            r == (self.client, self.start),
    {
        (self.client, self.start)
    }
}

impl IdComp for ChangeId {
    open spec fn spec_comp_id(&self, other: Id) -> Relation {
        change_relation(*self, other)
    }

    fn comp_id(&self, other: &Id) -> (r: Relation) {
        if self.client == other.client {
            if other.clock < self.start {
                Relation::Greater
            } else if self.end < other.clock {
                Relation::Less
            } else {
                Relation::Equal
            }
        } else if self.client < other.client {
            Relation::Less
        } else {
            Relation::Greater
        }
    }
}

impl WithId for ChangeId {
    open spec fn spec_id(&self) -> Id {
        Id { client: self.client, clock: self.start }
    }

    #[inline]
    fn id(&self) -> (r: Id) {
        Id::new(self.client, self.start)
    }
}

/// A change covers the id of its first tick.
pub proof fn lemma_change_covers_own_id(c: ChangeId)
    requires
        c.start <= c.end,
    ensures
        change_relation(c, c.spec_id()) == Relation::Equal,
{
}

/// The change order is antisymmetric: swapping the changes swaps `Less` and `Greater`.
pub proof fn lemma_change_order_flip(a: ChangeId, b: ChangeId)
    requires
        a.start <= a.end,
        b.start <= b.end,
    ensures
        change_rel(a, b) == Relation::Less <==> change_rel(b, a) == Relation::Greater,
        change_rel(a, b) == Relation::Equal <==> change_rel(b, a) == Relation::Equal,
{
}

/// Every change of the run is a range with `start <= end`.
pub open spec fn ranges_ok(s: Seq<ChangeId>) -> bool {
    forall|i: int| 0 <= i < s.len() ==> (#[trigger] s[i]).start <= s[i].end
}

/// The changes are in strictly increasing order: pairwise before one another.
pub open spec fn chain(s: Seq<ChangeId>) -> bool {
    forall|i: int, j: int|
        0 <= i < j < s.len() ==> change_rel(#[trigger] s[i], #[trigger] s[j]) == Relation::Less
}

/// The number of changes of the run that lie before `x`.
pub open spec fn below(s: Seq<ChangeId>, x: ChangeId) -> int
    decreases s.len(),
{
    if s.len() == 0 {
        0
    } else if change_rel(s.last(), x) == Relation::Less {
        s.len() as int
    } else {
        below(s.drop_last(), x)
    }
}

/// Some change of the run overlaps `x`.
pub open spec fn overlaps(s: Seq<ChangeId>, x: ChangeId) -> bool {
    exists|i: int| 0 <= i < s.len() && change_rel(s[i], x) == Relation::Equal
}

/// Being before is transitive through a well-formed middle change.
pub proof fn lemma_before_trans(a: ChangeId, b: ChangeId, c: ChangeId)
    requires
        change_rel(a, b) == Relation::Less,
        change_rel(b, c) == Relation::Less,
        b.start <= b.end,
    ensures
        change_rel(a, c) == Relation::Less,
{
}

/// In an ordered run of well-formed changes, the changes before a well-formed `x` come
/// first, and their number is `below`.
pub proof fn lemma_below(s: Seq<ChangeId>, x: ChangeId)
    requires
        chain(s),
        ranges_ok(s),
        x.start <= x.end,
    ensures
        0 <= below(s, x) <= s.len(),
        forall|i: int| 0 <= i < below(s, x) ==> change_rel(s[i], x) == Relation::Less,
        forall|i: int| below(s, x) <= i < s.len() ==> change_rel(s[i], x) != Relation::Less,
    decreases s.len(),
{
    if s.len() > 0 {
        let t = s.drop_last();
        let n = s.len() - 1;
        if change_rel(s.last(), x) == Relation::Less {
            assert forall|i: int| 0 <= i < s.len() implies change_rel(s[i], x) == Relation::Less by {
                if i < n {
                    assert(change_rel(s[i], s[n]) == Relation::Less);
                    lemma_before_trans(s[i], s[n], x);
                }
            }
        } else {
            assert(chain(t)) by {
                assert forall|i: int, j: int| 0 <= i < j < t.len() implies change_rel(
                    #[trigger] t[i],
                    #[trigger] t[j],
                ) == Relation::Less by {
                    assert(t[i] == s[i] && t[j] == s[j]);
                }
            }
            assert(ranges_ok(t)) by {
                assert forall|i: int| 0 <= i < t.len() implies (#[trigger] t[i]).start <= t[i].end by {
                    assert(t[i] == s[i]);
                }
            }
            lemma_below(t, x);
            assert forall|i: int| below(s, x) <= i < s.len() implies change_rel(s[i], x)
                != Relation::Less by {
                if i < n {
                    assert(t[i] == s[i]);
                }
            }
            assert forall|i: int| 0 <= i < below(s, x) implies change_rel(s[i], x)
                == Relation::Less by {
                assert(t[i] == s[i]);
            }
        }
    }
}

/// The first position whose change is not before `x`.
fn position(v: &Vec<ChangeId>, x: &ChangeId) -> (p: usize)
    requires
        chain(v@),
        ranges_ok(v@),
        x.start <= x.end,
    ensures
        p == below(v@, *x),
{
    proof {
        lemma_below(v@, *x);
    }
    let mut lo: usize = 0;
    let mut hi: usize = v.len();
    while lo < hi
        invariant
            0 <= lo <= hi <= v@.len(),
            chain(v@),
            ranges_ok(v@),
            x.start <= x.end,
            0 <= below(v@, *x) <= v@.len(),
            forall|i: int| 0 <= i < below(v@, *x) ==> change_rel(v@[i], *x) == Relation::Less,
            forall|i: int| below(v@, *x) <= i < v@.len() ==> change_rel(v@[i], *x) != Relation::Less,
            lo <= below(v@, *x) <= hi,
        decreases hi - lo,
    {
        let mid = lo + (hi - lo) / 2;
        match v[mid].relation(x) {
            Relation::Less => {
                lo = mid + 1;
            },
            _ => {
                hi = mid;
            },
        }
    }
    lo
}

/// The changes of one client, kept ordered and without overlaps.
#[derive(Debug, Clone, Default, PartialEq, Eq)]
pub struct ClientChangeStore {
    pub set: Vec<ChangeId>,
}

impl ClientChangeStore {
    pub open spec fn wf(&self) -> bool {
        chain(self.set@) && ranges_ok(self.set@)
    }

    /// The store a change would leave after its insertion.
    pub open spec fn inserted(s: Seq<ChangeId>, x: ChangeId) -> Seq<ChangeId> {
        if overlaps(s, x) {
            s
        } else {
            s.insert(below(s, x), x)
        }
    }

    pub fn new() -> (r: Self)
        ensures
            r.wf(),
            r.set@.len() == 0,
    {
        ClientChangeStore { set: Vec::new() }
    }

    /// Adds a change unless a kept change overlaps it.
    pub fn insert(&mut self, change_id: ChangeId)
        requires
            old(self).wf(),
            change_id.start <= change_id.end,
        ensures
            final(self).wf(),
            final(self).set@ == Self::inserted(old(self).set@, change_id),
    {
        let ghost s = self.set@;
        let p = position(&self.set, &change_id);
        proof {
            lemma_below(s, change_id);
        }
        if p < self.set.len() {
            match self.set[p].relation(&change_id) {
                Relation::Equal => {
                    return;
                },
                _ => {},
            }
        }
        proof {
            assert(!overlaps(s, change_id));
            if p < s.len() {
                lemma_change_order_flip(s[p as int], change_id);
            }
        }
        self.set.insert(p, change_id);
        proof {
            let t = self.set@;
            assert forall|i: int, j: int| 0 <= i < j < t.len() implies change_rel(
                #[trigger] t[i],
                #[trigger] t[j],
            ) == Relation::Less by {
                if j < p {
                    assert(t[i] == s[i] && t[j] == s[j]);
                } else if j == p {
                    assert(t[i] == s[i]);
                } else if i == p {
                    assert(t[j] == s[j - 1]);
                    if j - 1 > p {
                        assert(change_rel(s[p as int], s[j - 1]) == Relation::Less);
                        lemma_before_trans(change_id, s[p as int], s[j - 1]);
                    }
                } else if i < p {
                    assert(t[i] == s[i] && t[j] == s[j - 1]);
                } else {
                    assert(t[i] == s[i - 1] && t[j] == s[j - 1]);
                }
            }
            assert forall|i: int| 0 <= i < t.len() implies (#[trigger] t[i]).start <= t[i].end by {
                if i < p {
                    assert(t[i] == s[i]);
                } else if i > p {
                    assert(t[i] == s[i - 1]);
                }
            }
        }
    }

    /// Removes the change that covers the id, if one is kept.
    pub fn remove(&mut self, id: &Id)
        requires
            old(self).wf(),
        ensures
            final(self).wf(),
            final(self).set@ == Self::removed(old(self).set@, ChangeId::spec_from_id(*id)),
    {
        let probe = ChangeId::from_id(*id);
        self.remove_change(&probe);
    }

    /// The store a change would leave after the removal of the kept change overlapping it:
    /// the one at the position where it would go.
    pub open spec fn removed(s: Seq<ChangeId>, x: ChangeId) -> Seq<ChangeId> {
        let p = below(s, x);
        if p < s.len() && change_rel(s[p], x) == Relation::Equal {
            s.remove(p)
        } else {
            s
        }
    }

    /// Removes the kept change that overlaps `x`, found where `x` would go.
    pub fn remove_change(&mut self, x: &ChangeId)
        requires
            old(self).wf(),
            x.start <= x.end,
        ensures
            final(self).wf(),
            final(self).set@ == Self::removed(old(self).set@, *x),
    {
        let ghost s = self.set@;
        let p = position(&self.set, x);
        if p < self.set.len() {
            match self.set[p].relation(x) {
                Relation::Equal => {
                    self.set.remove(p);
                    proof {
                        let t = self.set@;
                        assert forall|i: int, j: int| 0 <= i < j < t.len() implies change_rel(
                            #[trigger] t[i],
                            #[trigger] t[j],
                        ) == Relation::Less by {
                            if j < p {
                                assert(t[i] == s[i] && t[j] == s[j]);
                            } else if i < p {
                                assert(t[i] == s[i] && t[j] == s[j + 1]);
                            } else {
                                assert(t[i] == s[i + 1] && t[j] == s[j + 1]);
                            }
                        }
                        assert forall|i: int| 0 <= i < t.len() implies (#[trigger] t[i]).start
                            <= t[i].end by {
                            if i < p {
                                assert(t[i] == s[i]);
                            } else {
                                assert(t[i] == s[i + 1]);
                            }
                        }
                    }
                },
                _ => {},
            }
        }
    }

    /// The kept change that covers the id.
    pub fn get(&self, id: &Id) -> (r: Option<&ChangeId>)
        requires
            self.wf(),
        ensures
            match r {
                Some(c) => self.set@.contains(*c) && c.client == id.client && c.start <= id.clock
                    && id.clock <= c.end,
                None => !(exists|i: int|
                    0 <= i < self.set@.len() && (#[trigger] self.set@[i]).client == id.client
                        && self.set@[i].start <= id.clock && id.clock <= self.set@[i].end),
            },
    {
        let probe = ChangeId::from_id(*id);
        let p = position(&self.set, &probe);
        proof {
            lemma_below(self.set@, probe);
        }
        if p < self.set.len() {
            match self.set[p].relation(&probe) {
                Relation::Equal => {
                    return Some(&self.set[p]);
                },
                _ => {},
            }
        }
        proof {
            let s = self.set@;
            if exists|i: int|
                0 <= i < s.len() && (#[trigger] s[i]).client == id.client && s[i].start <= id.clock
                    && id.clock <= s[i].end {
                let i = choose|i: int|
                    0 <= i < s.len() && (#[trigger] s[i]).client == id.client && s[i].start
                        <= id.clock && id.clock <= s[i].end;
                assert(change_rel(s[i], probe) == Relation::Equal);
                if i > p {
                    assert(change_rel(s[p as int], s[i]) == Relation::Less);
                    lemma_change_order_flip(s[p as int], probe);
                }
            }
        }
        None
    }

    pub fn size(&self) -> (r: usize)
        ensures
            r == self.set@.len(),
    {
        self.set.len()
    }

    /// The kept changes in order.
    pub fn iter(&self) -> (r: &[ChangeId])
        ensures
            r@ == self.set@,
    {
        self.set.as_slice()
    }

    /// Removes and returns the first change.
    pub fn pop_first(&mut self) -> (r: Option<ChangeId>)
        requires
            old(self).wf(),
        ensures
            final(self).wf(),
            old(self).set@.len() == 0 ==> r is None && final(self).set@ == old(self).set@,
            old(self).set@.len() > 0 ==> r == Some(old(self).set@[0]) && final(self).set@
                == old(self).set@.subrange(1, old(self).set@.len() as int),
    {
        if self.set.len() == 0 {
            None
        } else {
            let ghost s = self.set@;
            let c = self.set.remove(0);
            proof {
                assert(self.set@ =~= s.subrange(1, s.len() as int));
                assert forall|i: int, j: int| 0 <= i < j < self.set@.len() implies change_rel(
                    #[trigger] self.set@[i],
                    #[trigger] self.set@[j],
                ) == Relation::Less by {
                    assert(self.set@[i] == s[i + 1] && self.set@[j] == s[j + 1]);
                }
                assert forall|i: int| 0 <= i < self.set@.len() implies (#[trigger] self.set@[i]).start
                    <= self.set@[i].end by {
                    assert(self.set@[i] == s[i + 1]);
                }
            }
            Some(c)
        }
    }

    /// Removes and returns the last change.
    pub fn pop_last(&mut self) -> (r: Option<ChangeId>)
        requires
            old(self).wf(),
        ensures
            final(self).wf(),
            old(self).set@.len() == 0 ==> r is None && final(self).set@ == old(self).set@,
            old(self).set@.len() > 0 ==> r == Some(old(self).set@.last()) && final(self).set@
                == old(self).set@.drop_last(),
    {
        let r = self.set.pop();
        proof {
            assert forall|i: int, j: int| 0 <= i < j < self.set@.len() implies change_rel(
                #[trigger] self.set@[i],
                #[trigger] self.set@[j],
            ) == Relation::Less by {
                assert(self.set@[i] == old(self).set@[i] && self.set@[j] == old(self).set@[j]);
            }
            assert forall|i: int| 0 <= i < self.set@.len() implies (#[trigger] self.set@[i]).start
                <= self.set@[i].end by {
                assert(self.set@[i] == old(self).set@[i]);
            }
        }
        r
    }

    /// The first change, if any.
    pub fn first(&self) -> (r: Option<&ChangeId>)
        ensures
            r == (if self.set@.len() == 0 { None } else { Some(&self.set@[0]) }),
    {
        if self.set.len() == 0 {
            None
        } else {
            Some(&self.set[0])
        }
    }

    /// The last change, if any.
    pub fn last(&self) -> (r: Option<&ChangeId>)
        ensures
            r == (if self.set@.len() == 0 { None } else { Some(&self.set@.last()) }),
    {
        if self.set.len() == 0 {
            None
        } else {
            Some(&self.set[self.set.len() - 1])
        }
    }
}

/// A peer's clock of a client: 0 when it has none.
pub open spec fn clock_of(state: Map<ClientId, ClockTick>, c: ClientId) -> ClockTick {
    if state.contains_key(c) {
        state[c]
    } else {
        0
    }
}

impl ClientChangeStore {
    /// A store of the changes that start after `tick`, in order.
    pub fn keep_after(&self, tick: ClockTick) -> (r: ClientChangeStore)
        requires
            self.wf(),
        ensures
            r.wf(),
            r.set@ == self.set@.filter(|x: ChangeId| x.start > tick),
    {
        let ghost keep = |x: ChangeId| x.start > tick;
        let mut out = ClientChangeStore::new();
        let mut j: usize = 0;
        assert(self.set@.take(0).filter(keep) =~= Seq::<ChangeId>::empty());
        while j < self.set.len()
            invariant
                self.wf(),
                j <= self.set@.len(),
                out.wf(),
                keep == (|x: ChangeId| x.start > tick),
                out.set@ == self.set@.take(j as int).filter(keep),
                forall|a: int| 0 <= a < out.set@.len() ==> exists|b: int| 0 <= b < j && (#[trigger] out.set@[a]) == self.set@[b],
            decreases self.set@.len() - j,
        {
            let c = self.set[j];
            let ghost prev = out.set@;
            proof {
                let t = self.set@.take(j as int + 1);
                assert(t.drop_last() =~= self.set@.take(j as int));
                assert(t.last() == c);
                reveal(Seq::filter);
                assert(t.filter(keep) == if keep(c) {
                    self.set@.take(j as int).filter(keep).push(c)
                } else {
                    self.set@.take(j as int).filter(keep)
                });
            }
            if c.start > tick {
                proof {
                    assert forall|a: int| 0 <= a < prev.len() implies change_rel(#[trigger] prev[a], c) == Relation::Less by {
                        let b = choose|b: int| 0 <= b < j && prev[a] == self.set@[b];
                        assert(change_rel(self.set@[b], self.set@[j as int]) == Relation::Less);
                    }
                    assert(!overlaps(prev, c));
                    if prev.len() > 0 {
                        assert(change_rel(prev.last(), c) == Relation::Less);
                    }
                    assert(below(prev, c) == prev.len());
                }
                out.insert(c);
                proof {
                    assert(out.set@ =~= prev.push(c));
                    assert(keep(c));
                    assert(out.set@ == self.set@.take(j as int + 1).filter(keep));
                    assert forall|a: int| 0 <= a < out.set@.len() implies exists|b: int| 0 <= b < j + 1 && (#[trigger] out.set@[a]) == self.set@[b] by {
                        if a < prev.len() {
                            let b = choose|b: int| 0 <= b < j && prev[a] == self.set@[b];
                            assert(out.set@[a] == self.set@[b]);
                        } else {
                            assert(out.set@[a] == self.set@[j as int]);
                        }
                    }
                }
            } else {
                assert(!keep(c));
                assert(out.set@ == self.set@.take(j as int + 1).filter(keep));
            }
            j = j + 1;
        }
        assert(self.set@.take(self.set@.len() as int) =~= self.set@);
        out
    }
}

/// The change covers the id: the same client, and the id's clock within the change.
pub open spec fn covers(c: ChangeId, id: Id) -> bool {
    c.client == id.client && c.start <= id.clock && id.clock <= c.end
}

/// Whether two changes are the same: client, start and end.
fn same_change(a: &ChangeId, b: &ChangeId) -> (r: bool)
    ensures
        r == (*a == *b),
{
    a.client == b.client && a.start == b.start && a.end == b.end
}

/// The stores of the clients, kept in a hash map of the hashbrown crate.
#[verifier::external_body]
#[derive(Debug, PartialEq, Eq)]
pub struct ChangeMap {
    map: hashbrown::HashMap<ClientId, ClientChangeStore>,
}

/// The store of each client that a map holds.
pub uninterp spec fn client_stores(m: ChangeMap) -> Map<ClientId, ClientChangeStore>;

/// Each listed client's store is the map's, no client is listed twice, and every client of
/// the map is listed.
pub open spec fn listed(es: Seq<(ClientId, &ClientChangeStore)>, m: Map<ClientId, ClientChangeStore>) -> bool {
    &&& forall|i: int|
        0 <= i < es.len() ==> m.contains_key((#[trigger] es[i]).0) && m[es[i].0] == *es[i].1
    &&& forall|i: int, j: int| 0 <= i < j < es.len() ==> (#[trigger] es[i]).0 != (#[trigger] es[j]).0
    &&& forall|k: ClientId|
        m.contains_key(k) ==> exists|i: int| 0 <= i < es.len() && (#[trigger] es[i]).0 == k
}

impl ChangeMap {
    /// An empty map: `hashbrown::HashMap::new`.
    #[verifier::external_body]
    pub(crate) fn new() -> (r: ChangeMap)
        ensures
            client_stores(r).dom() == Set::<ClientId>::empty(),
    {
        ChangeMap { map: hashbrown::HashMap::new() }
    }

    /// The store of a client: `hashbrown::HashMap::get`.
    #[verifier::external_body]
    pub(crate) fn get(&self, client: &ClientId) -> (r: Option<&ClientChangeStore>)
        ensures
            r == (if client_stores(*self).contains_key(*client) {
                Some(&client_stores(*self)[*client])
            } else {
                None
            }),
    {
        self.map.get(client)
    }

    /// The store of a client, to be changed in place: `hashbrown::HashMap::get_mut`.
    #[verifier::external_body]
    pub(crate) fn get_mut(&mut self, client: &ClientId) -> (r: Option<&mut ClientChangeStore>)
        ensures
            !client_stores(*old(self)).contains_key(*client) ==> r is None && client_stores(*final(self)) == client_stores(*old(self)),
            client_stores(*old(self)).contains_key(*client) ==> r is Some && *r.unwrap()
                == client_stores(*old(self))[*client] && client_stores(*final(self))
                == client_stores(*old(self)).insert(*client, *final(r.unwrap())),
    {
        self.map.get_mut(client)
    }

    /// The store of a client, put in empty first when the client has none:
    /// `hashbrown::HashMap::entry` and `Entry::or_insert_with`.
    #[verifier::external_body]
    pub(crate) fn entry_or_new(&mut self, client: ClientId) -> (r: &mut ClientChangeStore)
        ensures
            client_stores(*old(self)).contains_key(client) ==> *r == client_stores(*old(self))[client],
            !client_stores(*old(self)).contains_key(client) ==> r.set@.len() == 0,
            client_stores(*final(self)) == client_stores(*old(self)).insert(client, *final(r)),
    {
        self.map.entry(client).or_insert_with(ClientChangeStore::new)
    }

    /// Puts in a client's store, in place of the one it had: `hashbrown::HashMap::insert`.
    #[verifier::external_body]
    pub(crate) fn insert(&mut self, client: ClientId, store: ClientChangeStore)
        ensures
            client_stores(*final(self)) == client_stores(*old(self)).insert(client, store),
    {
        self.map.insert(client, store);
    }

    /// The clients with their stores, in the order the map walks them:
    /// `hashbrown::HashMap::iter`.
    #[verifier::external_body]
    pub(crate) fn stores(&self) -> (r: Vec<(ClientId, &ClientChangeStore)>)
        ensures
            listed(r@, client_stores(*self)),
    {
        self.map.iter().map(|(k, v)| (*k, v)).collect()
    }
}

/// The changes of all clients, each client's in a store of its own.
#[derive(Debug, PartialEq, Eq)]
pub struct ChangeStore {
    pub map: ChangeMap,
}

impl Default for ChangeStore {
    fn default() -> (r: ChangeStore)
        ensures
            r.stores() == Map::<ClientId, ClientChangeStore>::empty(),
            r.wf(),
    {
        ChangeStore::new()
    }
}

impl ChangeStore {
    /// Each client's store, by client.
    pub open spec fn stores(&self) -> Map<ClientId, ClientChangeStore> {
        client_stores(self.map)
    }

    /// Finitely many clients, and every store is well formed.
    pub open spec fn wf(&self) -> bool {
        &&& self.stores().dom().finite()
        &&& forall|c: ClientId| #[trigger] self.stores().contains_key(c) ==> self.stores()[c].wf()
    }

    /// Some kept change covers the id.
    pub open spec fn covered(&self, id: Id) -> bool {
        self.stores().contains_key(id.client) && exists|i: int|
            0 <= i < self.stores()[id.client].set@.len() && covers(
                #[trigger] self.stores()[id.client].set@[i],
                id,
            )
    }

    /// An empty store.
    pub fn new() -> (r: ChangeStore)
        ensures
            r.stores() == Map::<ClientId, ClientChangeStore>::empty(),
            r.wf(),
    {
        ChangeStore { map: ChangeMap::new() }
    }

    /// The number of changes of all stores together.
    pub fn size(&self) -> (r: usize)
        requires
            self.wf(),
            total_changes(self.stores()) <= usize::MAX,
        ensures
            r == total_changes(self.stores()),
    {
        let es = self.map.stores();
        proof {
            lemma_listed_total(es@, self.stores());
        }
        let mut sum: usize = 0;
        let mut i: usize = 0;
        while i < es.len()
            invariant
                i <= es@.len(),
                sum == listed_size(es@.take(i as int)),
                listed_size(es@) == total_changes(self.stores()),
                total_changes(self.stores()) <= usize::MAX,
            decreases es@.len() - i,
        {
            proof {
                lemma_listed_prefix(es@, i as int + 1);
                assert(es@.take(i as int + 1).drop_last() =~= es@.take(i as int));
            }
            sum = sum + es[i].1.size();
            i = i + 1;
        }
        assert(es@.take(es@.len() as int) =~= es@);
        sum
    }

    /// The clients with their stores, in the order the map walks them.
    pub fn iter(&self) -> (r: Vec<(ClientId, &ClientChangeStore)>)
        ensures
            listed(r@, self.stores()),
    {
        self.map.stores()
    }

    /// A set of the kept changes; it is always left empty.
    pub fn hash_set(&self) -> (r: Vec<ChangeId>)
        ensures
            r@.len() == 0,
    {
        Vec::new()
    }

    /// The changes that a peer with the given clocks lacks: for each client of the store,
    /// its changes that start after the peer's clock of that client (0 when the peer has
    /// none), in a store of the same clients.
    pub fn diff(&self, state: &HashMap<ClientId, ClockTick>) -> (r: ChangeStore)
        requires
            self.wf(),
        ensures
            r.wf(),
            r.stores().dom() == self.stores().dom(),
            forall|c: ClientId|
                #[trigger] self.stores().contains_key(c) ==> r.stores()[c].set@ == self.stores()[c].set@.filter(
                    |x: ChangeId| x.start > clock_of(state@, c),
                ),
    {
        broadcast use vstd::std_specs::hash::group_hash_axioms;

        let es = self.map.stores();
        proof {
            lemma_listed_total(es@, self.stores());
        }
        let mut out = ChangeMap::new();
        let mut i: usize = 0;
        while i < es.len()
            invariant
                self.wf(),
                i <= es@.len(),
                listed(es@, self.stores()),
                client_stores(out).dom() == es@.take(i as int).map_values(
                    |e: (ClientId, &ClientChangeStore)| e.0,
                ).to_set(),
                forall|c: ClientId| #[trigger] client_stores(out).contains_key(c) ==> client_stores(out)[c].wf()
                    && self.stores().contains_key(c) && client_stores(out)[c].set@
                    == self.stores()[c].set@.filter(|x: ChangeId| x.start > clock_of(state@, c)),
            decreases es@.len() - i,
        {
            let client = es[i].0;
            let store = es[i].1;
            let tick: ClockTick = match state.get(&client) {
                Some(t) => *t,
                None => 0,
            };
            proof {
                assert(self.stores().contains_key(client));
                assert(self.stores()[client] == *store);
            }
            let kept = store.keep_after(tick);
            let ghost before = client_stores(out);
            out.insert(client, kept);
            proof {
                let ks = es@.take(i as int + 1).map_values(|e: (ClientId, &ClientChangeStore)| e.0);
                let ks0 = es@.take(i as int).map_values(|e: (ClientId, &ClientChangeStore)| e.0);
                assert(ks =~= ks0.push(client));
                ks0.lemma_push_to_set_commute(client);
            }
            i = i + 1;
        }
        proof {
            assert(es@.take(es@.len() as int) =~= es@);
            let ks = es@.map_values(|e: (ClientId, &ClientChangeStore)| e.0);
            assert forall|c: ClientId| ks.to_set().contains(c) <==> self.stores().contains_key(c) by {
                if self.stores().contains_key(c) {
                    let k = choose|k: int| 0 <= k < es@.len() && (#[trigger] es@[k]).0 == c;
                    assert(ks[k] == c);
                }
                if ks.to_set().contains(c) {
                    let k = choose|k: int| 0 <= k < ks.len() && ks[k] == c;
                    assert(es@[k].0 == c);
                }
            }
            assert(client_stores(out).dom() =~= self.stores().dom());
        }
        ChangeStore { map: out }
    }

    /// Removes the change that covers the id from its client's store.
    pub fn remove(&mut self, id: &Id)
        requires
            old(self).wf(),
        ensures
            final(self).wf(),
            !old(self).stores().contains_key(id.client) ==> final(self).stores() == old(self).stores(),
            old(self).stores().contains_key(id.client) ==> final(self).stores() == old(self).stores().insert(id.client, final(self).stores()[id.client]) && final(self).stores()[id.client].set@ == ClientChangeStore::removed(
                old(self).stores()[id.client].set@,
                ChangeId::spec_from_id(*id),
            ),
    {
        let ghost m = self.stores();
        match self.map.get_mut(&id.client) {
            Some(store) => {
                store.remove(id);
            },
            None => {},
        }
        proof {
            if m.contains_key(id.client) {
                assert(self.stores() == m.insert(id.client, self.stores()[id.client]));
                assert forall|c: ClientId| #[trigger] self.stores().contains_key(c) implies self.stores()[c].wf() by {
                    if c != id.client {
                        assert(m.contains_key(c));
                    }
                }
            }
        }
    }

    /// The store of a client.
    pub fn id_store(&self, client: &ClientId) -> (r: Option<&ClientChangeStore>)
        ensures
            r == (if self.stores().contains_key(*client) {
                Some(&self.stores()[*client])
            } else {
                None
            }),
    {
        self.map.get(client)
    }

    /// The store of a client, to be changed in place.
    pub fn id_store_mut(&mut self, client: &ClientId) -> (r: Option<&mut ClientChangeStore>)
        ensures
            !old(self).stores().contains_key(*client) ==> r is None && final(self).stores() == old(self).stores(),
            old(self).stores().contains_key(*client) ==> r is Some && *r.unwrap() == old(self).stores()[*client] && final(self).stores() == old(self).stores().insert(
                *client,
                *final(r.unwrap()),
            ),
    {
        self.map.get_mut(client)
    }

    /// Adds a change to its client's store, made empty first when the client has none,
    /// unless a kept change of the store overlaps it.
    pub fn insert(&mut self, change_id: ChangeId)
        requires
            old(self).wf(),
            change_id.start <= change_id.end,
        ensures
            final(self).wf(),
            final(self).stores().dom() == old(self).stores().dom().insert(change_id.client),
            forall|c: ClientId|
                #[trigger] old(self).stores().contains_key(c) && c != change_id.client ==> final(self).stores()[c] == old(self).stores()[c],
            final(self).stores()[change_id.client].set@ == ClientChangeStore::inserted(
                if old(self).stores().contains_key(change_id.client) {
                    old(self).stores()[change_id.client].set@
                } else {
                    Seq::empty()
                },
                change_id,
            ),
    {
        let ghost m = self.stores();
        let entry = self.map.entry_or_new(change_id.client);
        entry.insert(change_id);
        proof {
            assert forall|c: ClientId| #[trigger] self.stores().contains_key(c) implies self.stores()[c].wf() by {
                if c != change_id.client {
                    assert(m.contains_key(c));
                }
            }
        }
    }

    /// The kept change that covers the id.
    pub fn get(&self, id: &Id) -> (r: Option<&ChangeId>)
        requires
            self.wf(),
        ensures
            match r {
                Some(c) => self.stores().contains_key(id.client) && self.stores()[id.client].set@.contains(*c)
                    && covers(*c, *id),
                None => !self.covered(*id),
            },
    {
        match self.map.get(&id.client) {
            Some(store) => {
                assert(self.stores().contains_key(id.client));
                store.get(id)
            },
            None => None,
        }
    }

    /// The kept changes that cover the ids, each once.
    pub fn deps(&self, change: &Vec<Id>) -> (r: Vec<ChangeId>)
        requires
            self.wf(),
        ensures
            r@.no_duplicates(),
            forall|c: ChangeId|
                r@.contains(c) <==> exists|i: int|
                    0 <= i < change@.len() && #[trigger] covers(c, change@[i])
                        && self.stores().contains_key(c.client) && self.stores()[c.client].set@.contains(c),
    {
        let mut deps: Vec<ChangeId> = Vec::new();
        let mut k: usize = 0;
        while k < change.len()
            invariant
                self.wf(),
                k <= change@.len(),
                deps@.no_duplicates(),
                forall|c: ChangeId|
                    deps@.contains(c) <==> exists|i: int|
                        0 <= i < k && #[trigger] covers(c, change@[i])
                            && self.stores().contains_key(c.client) && self.stores()[c.client].set@.contains(c),
            decreases change@.len() - k,
        {
            let id = &change[k];
            let ghost before = deps@;
            match self.get(id) {
                Some(c) => {
                    let mut seen = false;
                    let mut j: usize = 0;
                    while j < deps.len()
                        invariant
                            j <= deps@.len(),
                            deps@ == before,
                            seen <==> exists|t: int| 0 <= t < j && deps@[t] == *c,
                        decreases deps@.len() - j,
                    {
                        if same_change(&deps[j], c) {
                            seen = true;
                        }
                        j = j + 1;
                    }
                    if !seen {
                        deps.push(*c);
                    }
                    proof {
                        lemma_one_cover(self.stores()[id.client].set@, *id);
                        assert forall|x: ChangeId| deps@.contains(x) <==> exists|i: int|
                            0 <= i < k + 1 && #[trigger] covers(x, change@[i])
                                && self.stores().contains_key(x.client) && self.stores()[x.client].set@.contains(x) by {
                            if exists|i: int| 0 <= i < k + 1 && #[trigger] covers(x, change@[i])
                                && self.stores().contains_key(x.client) && self.stores()[x.client].set@.contains(x) {
                                let i = choose|i: int| 0 <= i < k + 1 && #[trigger] covers(x, change@[i])
                                    && self.stores().contains_key(x.client) && self.stores()[x.client].set@.contains(x);
                                if i == k {
                                    let a = choose|a: int| 0 <= a < self.stores()[x.client].set@.len() && self.stores()[x.client].set@[a] == x;
                                    let b = choose|b: int| 0 <= b < self.stores()[x.client].set@.len() && self.stores()[x.client].set@[b] == *c;
                                    assert(covers(self.stores()[x.client].set@[a], *id));
                                    assert(covers(self.stores()[x.client].set@[b], *id));
                                    assert(x == *c);
                                    if seen {
                                        let t = choose|t: int| 0 <= t < deps@.len() && deps@[t] == *c;
                                        assert(deps@[t] == x);
                                    } else {
                                        assert(deps@[deps@.len() - 1] == x);
                                    }
                                } else {
                                    assert(before.contains(x));
                                    let t = choose|t: int| 0 <= t < before.len() && before[t] == x;
                                    assert(deps@[t] == x);
                                }
                            }
                            if deps@.contains(x) {
                                if !before.contains(x) {
                                    assert(!seen);
                                    let t = choose|t: int| 0 <= t < deps@.len() && deps@[t] == x;
                                    assert(t == before.len());
                                    assert(x == *c);
                                    assert(covers(x, change@[k as int]));
                                }
                            }
                        }
                        if !seen {
                            assert forall|a: int, b: int| 0 <= a < b < deps@.len() implies deps@[a] != deps@[b] by {
                                if b == deps@.len() - 1 {
                                    assert(deps@[b] == *c);
                                    assert(deps@[a] == before[a]);
                                } else {
                                    assert(deps@[a] == before[a] && deps@[b] == before[b]);
                                }
                            }
                        }
                    }
                },
                None => {
                    proof {
                        assert forall|x: ChangeId| deps@.contains(x) <==> exists|i: int|
                            0 <= i < k + 1 && #[trigger] covers(x, change@[i])
                                && self.stores().contains_key(x.client) && self.stores()[x.client].set@.contains(x) by {
                            if exists|i: int| 0 <= i < k + 1 && #[trigger] covers(x, change@[i])
                                && self.stores().contains_key(x.client) && self.stores()[x.client].set@.contains(x) {
                                let i = choose|i: int| 0 <= i < k + 1 && #[trigger] covers(x, change@[i])
                                    && self.stores().contains_key(x.client) && self.stores()[x.client].set@.contains(x);
                                if i == k {
                                    let a = choose|a: int| 0 <= a < self.stores()[x.client].set@.len() && self.stores()[x.client].set@[a] == x;
                                    assert(covers(self.stores()[id.client].set@[a], *id));
                                    assert(self.covered(*id));
                                }
                            }
                        }
                    }
                },
            }
            k = k + 1;
        }
        deps
    }
}

/// The number of changes the stores hold together.
pub open spec fn total_changes(m: Map<ClientId, ClientChangeStore>) -> int
    decreases m.dom().len(),
    when m.dom().finite()
{
    if m.dom().len() == 0 {
        0
    } else {
        let c = m.dom().choose();
        m[c].set@.len() + total_changes(m.remove(c))
    }
}

/// The number of changes of the listed stores together.
pub open spec fn listed_size(es: Seq<(ClientId, &ClientChangeStore)>) -> int
    decreases es.len(),
{
    if es.len() == 0 {
        0
    } else {
        listed_size(es.drop_last()) + es.last().1.set@.len()
    }
}

/// Any client's store can be counted first.
pub proof fn lemma_total_remove(m: Map<ClientId, ClientChangeStore>, k: ClientId)
    requires
        m.dom().finite(),
        m.contains_key(k),
    ensures
        total_changes(m) == m[k].set@.len() + total_changes(m.remove(k)),
    decreases m.dom().len(),
{
    let c = m.dom().choose();
    if c != k {
        lemma_total_remove(m.remove(c), k);
        lemma_total_remove(m.remove(k), c);
        assert(m.remove(c).remove(k) =~= m.remove(k).remove(c));
    }
}

/// A listing of the stores counts all their changes.
pub proof fn lemma_listed_total(es: Seq<(ClientId, &ClientChangeStore)>, m: Map<ClientId, ClientChangeStore>)
    requires
        listed(es, m),
    ensures
        m.dom().finite(),
        es.len() == m.dom().len(),
        listed_size(es) == total_changes(m),
    decreases es.len(),
{
    if es.len() == 0 {
        assert(m.dom() =~= Set::<ClientId>::empty());
    } else {
        let k = es.last().0;
        let t = es.drop_last();
        let m2 = m.remove(k);
        assert(es.last() == es[es.len() - 1]);
        assert forall|i: int| 0 <= i < t.len() implies m2.contains_key((#[trigger] t[i]).0) && m2[t[i].0]
            == *t[i].1 by {
            assert(t[i] == es[i]);
            assert(es[i].0 != es[es.len() - 1].0);
        }
        assert forall|i: int, j: int| 0 <= i < j < t.len() implies (#[trigger] t[i]).0 != (
        #[trigger] t[j]).0 by {
            assert(t[i] == es[i] && t[j] == es[j]);
        }
        assert forall|x: ClientId| m2.contains_key(x) implies exists|i: int|
            0 <= i < t.len() && (#[trigger] t[i]).0 == x by {
            let i = choose|i: int| 0 <= i < es.len() && (#[trigger] es[i]).0 == x;
            assert(i != es.len() - 1);
            assert(t[i] == es[i]);
        }
        lemma_listed_total(t, m2);
        assert(m.dom() =~= m2.dom().insert(k));
        lemma_total_remove(m, k);
    }
}

/// A prefix of a listing counts no more changes than the whole.
pub proof fn lemma_listed_prefix(es: Seq<(ClientId, &ClientChangeStore)>, i: int)
    requires
        0 <= i <= es.len(),
    ensures
        listed_size(es.take(i)) <= listed_size(es),
    decreases es.len() - i,
{
    if i < es.len() {
        lemma_listed_prefix(es.drop_last(), i);
        assert(es.drop_last().take(i) =~= es.take(i));
    } else {
        assert(es.take(i) =~= es);
    }
}

/// In an ordered run, at most one change covers an id.
pub proof fn lemma_one_cover(s: Seq<ChangeId>, id: Id)
    requires
        chain(s),
        ranges_ok(s),
    ensures
        forall|a: int, b: int|
            0 <= a < s.len() && 0 <= b < s.len() && covers(#[trigger] s[a], id) && covers(
                #[trigger] s[b],
                id,
            ) ==> a == b,
{
    assert forall|a: int, b: int|
        0 <= a < s.len() && 0 <= b < s.len() && covers(#[trigger] s[a], id) && covers(
            #[trigger] s[b],
            id,
        ) implies a == b by {
        if a < b {
            assert(change_rel(s[a], s[b]) == Relation::Less);
        } else if b < a {
            assert(change_rel(s[b], s[a]) == Relation::Less);
        }
    }
}

} // verus!
