use crate::change::ChangeId;
use std::collections::{HashMap, VecDeque};
use vstd::prelude::*;

verus! {

/// The parents of each change, kept in a hash map of the hashbrown crate.
#[verifier::external_body]
pub struct ParentMap {
    map: hashbrown::HashMap<ChangeId, Vec<ChangeId>>,
}

/// The parents of each change that the map holds.
pub uninterp spec fn parent_lists(m: ParentMap) -> Map<ChangeId, Seq<ChangeId>>;

/// Every change of the map is listed once, with its parents, and nothing else is.
pub open spec fn lists(es: Seq<(ChangeId, Vec<ChangeId>)>, m: Map<ChangeId, Seq<ChangeId>>) -> bool {
    &&& forall|i: int|
        0 <= i < es.len() ==> m.contains_key((#[trigger] es[i]).0) && m[es[i].0] == es[i].1@
    &&& forall|i: int, j: int| 0 <= i < j < es.len() ==> (#[trigger] es[i]).0 != (#[trigger] es[j]).0
    &&& forall|k: ChangeId| m.contains_key(k) ==> exists|i: int| 0 <= i < es.len() && (#[trigger] es[i]).0 == k
}

impl ParentMap {
    /// A map with no change: `hashbrown::HashMap::new`.
    #[verifier::external_body]
    fn empty_map() -> (r: ParentMap)
        ensures
            parent_lists(r).dom().is_empty(),
    {
        ParentMap { map: hashbrown::HashMap::new() }
    }

    /// The map with a change put in with its parents, in place of any it had:
    /// `hashbrown::HashMap::insert`.
    #[verifier::external_body]
    fn with(self, change: ChangeId, parents: Vec<ChangeId>) -> (r: ParentMap)
        ensures
            parent_lists(r) == parent_lists(self).insert(change, parents@),
    {
        let mut m = self;
        m.map.insert(change, parents);
        m
    }

    /// A map with no change.
    pub fn new() -> (r: ParentMap)
        ensures
            parent_lists(r).dom().is_empty(),
    {
        Self::empty_map()
    }

    /// Records the parents of a change, in place of those it had.
    pub fn insert(&mut self, change: ChangeId, parents: Vec<ChangeId>)
        ensures
            parent_lists(*final(self)) == parent_lists(*old(self)).insert(change, parents@),
    {
        let mut taken = Self::empty_map();
        std::mem::swap(self, &mut taken);
        *self = taken.with(change, parents);
    }

    /// The changes with their parents, in the order the map walks them:
    /// `hashbrown::HashMap::iter`.
    #[verifier::external_body]
    pub(crate) fn entries(&self) -> (r: Vec<(ChangeId, Vec<ChangeId>)>)
        ensures
            lists(r@, parent_lists(*self)),
    {
        self.map.iter().map(|(k, v)| (*k, v.clone())).collect()
    }
}

/// The key of a change among the positions: client, start and end, from high to low.
pub open spec fn change_key(c: ChangeId) -> u128 {
    (c.client as int * 0x1_0000_0000_0000_0000 + c.start as int * 0x1_0000_0000
        + c.end as int) as u128
}

/// Two changes have the same key exactly when they are the same change.
pub proof fn lemma_change_key_injective(a: ChangeId, b: ChangeId)
    ensures
        change_key(a) == change_key(b) <==> a == b,
{
    let ka = a.client as int * 0x1_0000_0000_0000_0000 + a.start as int * 0x1_0000_0000
        + a.end as int;
    let kb = b.client as int * 0x1_0000_0000_0000_0000 + b.start as int * 0x1_0000_0000
        + b.end as int;
    assert(0 <= ka <= u128::MAX && 0 <= kb <= u128::MAX) by (nonlinear_arith)
        requires
            ka == a.client as int * 0x1_0000_0000_0000_0000 + a.start as int * 0x1_0000_0000
                + a.end as int,
            kb == b.client as int * 0x1_0000_0000_0000_0000 + b.start as int * 0x1_0000_0000
                + b.end as int,
            0 <= a.client <= u32::MAX,
            0 <= a.start <= u32::MAX,
            0 <= a.end <= u32::MAX,
            0 <= b.client <= u32::MAX,
            0 <= b.start <= u32::MAX,
            0 <= b.end <= u32::MAX,
    ;
    if ka == kb {
        let la = a.start as int * 0x1_0000_0000 + a.end as int;
        let lb = b.start as int * 0x1_0000_0000 + b.end as int;
        assert(la < 0x1_0000_0000_0000_0000 && lb < 0x1_0000_0000_0000_0000 && 0 <= la && 0 <= lb)
            by (nonlinear_arith)
            requires
                la == a.start as int * 0x1_0000_0000 + a.end as int,
                lb == b.start as int * 0x1_0000_0000 + b.end as int,
                0 <= a.start <= u32::MAX,
                0 <= a.end <= u32::MAX,
                0 <= b.start <= u32::MAX,
                0 <= b.end <= u32::MAX,
        ;
        assert(a.client == b.client && la == lb) by (nonlinear_arith)
            requires
                a.client as int * 0x1_0000_0000_0000_0000 + la == b.client as int
                    * 0x1_0000_0000_0000_0000 + lb,
                0 <= la < 0x1_0000_0000_0000_0000,
                0 <= lb < 0x1_0000_0000_0000_0000,
                0 <= a.client,
                0 <= b.client,
        ;
        assert(a.start == b.start && a.end == b.end) by (nonlinear_arith)
            requires
                a.start as int * 0x1_0000_0000 + a.end as int == b.start as int * 0x1_0000_0000
                    + b.end as int,
                0 <= a.end < 0x1_0000_0000,
                0 <= b.end < 0x1_0000_0000,
                0 <= a.start,
                0 <= b.start,
        ;
    }
}

/// The key of a change.
pub fn key_of_change(c: ChangeId) -> (r: u128)
    ensures
        r == change_key(c),
{
    assert(c.client as int * 0x1_0000_0000_0000_0000 + c.start as int * 0x1_0000_0000
        + c.end as int <= u128::MAX) by (nonlinear_arith)
        requires
            0 <= c.client <= u32::MAX,
            0 <= c.start <= u32::MAX,
            0 <= c.end <= u32::MAX,
    ;
    (c.client as u128) * 0x1_0000_0000_0000_0000 + (c.start as u128) * 0x1_0000_0000
        + (c.end as u128)
}


/// The number of times `x` occurs in `s`.
pub open spec fn occurrences<T>(s: Seq<T>, x: T) -> nat
    decreases s.len(),
{
    if s.len() == 0 {
        0
    } else {
        occurrences(s.drop_last(), x) + if s.last() == x {
            1nat
        } else {
            0nat
        }
    }
}

/// The number of entries of `s` that are not in `done`.
pub open spec fn pending(s: Seq<ChangeId>, done: Seq<ChangeId>) -> nat
    decreases s.len(),
{
    if s.len() == 0 {
        0
    } else {
        pending(s.drop_last(), done) + if done.contains(s.last()) {
            0nat
        } else {
            1nat
        }
    }
}

/// The number of entries that are false.
pub open spec fn count_false(s: Seq<bool>) -> nat
    decreases s.len(),
{
    if s.len() == 0 {
        0
    } else {
        count_false(s.drop_last()) + if s.last() {
            0nat
        } else {
            1nat
        }
    }
}

/// No change comes twice, each is a change of the map, and each comes after every one of
/// its parents.
pub open spec fn topological(r: Seq<ChangeId>, m: Map<ChangeId, Seq<ChangeId>>) -> bool {
    &&& r.no_duplicates()
    &&& forall|a: int| 0 <= a < r.len() ==> m.contains_key(#[trigger] r[a])
    &&& forall|a: int, j: int|
        0 <= a < r.len() && 0 <= j < m[r[a]].len() ==> #[trigger] r.take(a).contains(m[r[a]][j])
}

/// Every change of the map whose parents are all in `r` is in `r` too.
pub open spec fn closed(r: Seq<ChangeId>, m: Map<ChangeId, Seq<ChangeId>>) -> bool {
    forall|k: ChangeId|
        #[trigger] m.contains_key(k) && (forall|j: int| 0 <= j < m[k].len() ==> r.contains(m[k][j]))
            ==> r.contains(k)
}

pub proof fn lemma_pending_none(s: Seq<ChangeId>)
    ensures
        pending(s, Seq::empty()) == s.len(),
    decreases s.len(),
{
    if s.len() > 0 {
        lemma_pending_none(s.drop_last());
    }
}

/// Nothing is pending exactly when every entry is done.
pub proof fn lemma_pending_zero(s: Seq<ChangeId>, done: Seq<ChangeId>)
    ensures
        pending(s, done) == 0 <==> forall|j: int| 0 <= j < s.len() ==> done.contains(s[j]),
    decreases s.len(),
{
    if s.len() > 0 {
        lemma_pending_zero(s.drop_last(), done);
        if pending(s, done) == 0 {
            assert forall|j: int| 0 <= j < s.len() implies done.contains(s[j]) by {
                if j < s.len() - 1 {
                    assert(s.drop_last()[j] == s[j]);
                }
            }
        }
        if forall|j: int| 0 <= j < s.len() ==> done.contains(s[j]) {
            assert forall|j: int| 0 <= j < s.drop_last().len() implies done.contains(
                s.drop_last()[j],
            ) by {
                assert(s.drop_last()[j] == s[j]);
            }
            assert(done.contains(s[s.len() - 1]));
        }
    }
}

/// Marking one more change done takes its occurrences off what is pending.
pub proof fn lemma_pending_push(s: Seq<ChangeId>, done: Seq<ChangeId>, y: ChangeId)
    requires
        !done.contains(y),
    ensures
        pending(s, done) >= occurrences(s, y),
        pending(s, done.push(y)) == pending(s, done) - occurrences(s, y),
    decreases s.len(),
{
    if s.len() > 0 {
        lemma_pending_push(s.drop_last(), done, y);
        let x = s.last();
        assert(done.push(y).contains(x) <==> done.contains(x) || x == y) by {
            if done.push(y).contains(x) {
                let k = choose|k: int| 0 <= k < done.push(y).len() && done.push(y)[k] == x;
                if k < done.len() {
                    assert(done[k] == x);
                }
            }
            if done.contains(x) {
                let k = choose|k: int| 0 <= k < done.len() && done[k] == x;
                assert(done.push(y)[k] == x);
            }
            if x == y {
                assert(done.push(y)[done.len() as int] == x);
            }
        }
    }
}

/// Occurrences in a prefix grow by one entry at a time.
pub proof fn lemma_occurrences_take<T>(s: Seq<T>, m: int, x: T)
    requires
        0 <= m < s.len(),
    ensures
        occurrences(s.take(m + 1), x) == occurrences(s.take(m), x) + if s[m] == x {
            1nat
        } else {
            0nat
        },
        occurrences(s.take(m), x) <= occurrences(s, x),
    decreases s.len() - m,
{
    assert(s.take(m + 1).drop_last() =~= s.take(m));
    if m + 1 < s.len() {
        lemma_occurrences_take(s, m + 1, x);
    } else {
        assert(s.take(m + 1) =~= s);
    }
}

/// Setting a false entry to true leaves one false entry less.
pub proof fn lemma_count_false_set(s: Seq<bool>, i: int)
    requires
        0 <= i < s.len(),
        !s[i],
    ensures
        count_false(s.update(i, true)) + 1 == count_false(s),
    decreases s.len(),
{
    let t = s.update(i, true);
    if i == s.len() - 1 {
        assert(t.drop_last() =~= s.drop_last());
    } else {
        assert(t.drop_last() =~= s.drop_last().update(i, true));
        lemma_count_false_set(s.drop_last(), i);
    }
}



/// `n` copies of `x`.
pub open spec fn copies(x: usize, n: nat) -> Seq<usize> {
    Seq::new(n, |_i: int| x)
}

/// The positions, below `i`, of the entries naming the change listed at `p` as a parent, in
/// order, each as often as it names it.
pub open spec fn children_upto(es: Seq<(ChangeId, Vec<ChangeId>)>, p: int, i: int) -> Seq<usize>
    decreases i,
{
    if i <= 0 {
        Seq::empty()
    } else {
        children_upto(es, p, i - 1) + copies((i - 1) as usize, occurrences(es[i - 1].1@, es[p].0))
    }
}

/// The positions, below `i`, of the entries without parents, in order.
pub open spec fn roots_upto(es: Seq<(ChangeId, Vec<ChangeId>)>, i: int) -> Seq<usize>
    decreases i,
{
    if i <= 0 {
        Seq::empty()
    } else {
        roots_upto(es, i - 1) + if es[i - 1].1@.len() == 0 {
            seq![(i - 1) as usize]
        } else {
            Seq::empty()
        }
    }
}


/// What taking a change off the queue does to the counts and the queue: each entry that
/// names it, in turn, and is not taken yet, has one parent less to wait for, and joins the
/// queue when none is left.
pub open spec fn relax(inputs: Seq<usize>, queue: Seq<usize>, visited: Seq<bool>, ch: Seq<usize>) -> (
    Seq<usize>,
    Seq<usize>,
)
    decreases ch.len(),
{
    if ch.len() == 0 {
        (inputs, queue)
    } else {
        let prev = relax(inputs, queue, visited, ch.drop_last());
        let x = ch.last() as int;
        if !visited[x] && prev.0[x] > 0 {
            let left = (prev.0[x] - 1) as usize;
            (
                prev.0.update(x, left),
                if left == 0 {
                    prev.1.push(x as usize)
                } else {
                    prev.1
                },
            )
        } else {
            prev
        }
    }
}

/// One step of the sort, on the queue, the counts of parents to wait for and the entries
/// taken: the change at the front of the queue is taken, and the entries naming it relaxed.
pub open spec fn kahn_step(
    es: Seq<(ChangeId, Vec<ChangeId>)>,
    st: (Seq<usize>, Seq<usize>, Seq<bool>),
) -> (Option<ChangeId>, (Seq<usize>, Seq<usize>, Seq<bool>)) {
    if st.0.len() == 0 {
        (None, st)
    } else {
        let c = st.0[0] as int;
        let v = st.2.update(c, true);
        let r = relax(st.1, st.0.skip(1), v, children_upto(es, c, es.len() as int));
        (Some(es[c].0), (r.1, r.0, v))
    }
}

/// The changes the sort takes, in turn, until the queue is empty or `fuel` runs out.
pub open spec fn kahn_run(
    es: Seq<(ChangeId, Vec<ChangeId>)>,
    st: (Seq<usize>, Seq<usize>, Seq<bool>),
    fuel: nat,
) -> Seq<ChangeId>
    decreases fuel,
{
    if fuel == 0 {
        Seq::empty()
    } else {
        match kahn_step(es, st).0 {
            Some(x) => seq![x] + kahn_run(es, kahn_step(es, st).1, (fuel - 1) as nat),
            None => Seq::empty(),
        }
    }
}

/// The order the sort gives the listed changes: it starts from the changes without parents,
/// in the order they are listed, with every change waiting for all its parents.
pub open spec fn kahn_order(es: Seq<(ChangeId, Vec<ChangeId>)>) -> Seq<ChangeId> {
    let n = es.len();
    kahn_run(
        es,
        (
            roots_upto(es, n as int),
            Seq::new(n, |q: int| es[q].1@.len() as usize),
            Seq::new(n, |q: int| false),
        ),
        n + 1,
    )
}

/// A sequence with no true entry counts all its entries.
pub proof fn lemma_count_false_none(s: Seq<bool>)
    requires
        forall|i: int| 0 <= i < s.len() ==> !s[i],
    ensures
        count_false(s) == s.len(),
    decreases s.len(),
{
    if s.len() > 0 {
        lemma_count_false_none(s.drop_last());
    }
}

/// No change is listed twice.
pub open spec fn keys_distinct(es: Seq<(ChangeId, Vec<ChangeId>)>) -> bool {
    forall|i: int, j: int| 0 <= i < j < es.len() ==> (#[trigger] es[i]).0 != (#[trigger] es[j]).0
}

/// The map gives the position of each listed change by its key.
pub open spec fn indexes(index: Map<u128, usize>, es: Seq<(ChangeId, Vec<ChangeId>)>) -> bool {
    &&& forall|k: u128|
        #[trigger] index.contains_key(k) ==> index[k] < es.len() && change_key(es[index[k] as int].0)
            == k
    &&& forall|q: int| 0 <= q < es.len() ==> #[trigger] index.contains_key(change_key(es[q].0))
}

/// The positions of the listed changes, by key.
fn index_keys(es: &Vec<(ChangeId, Vec<ChangeId>)>) -> (r: HashMap<u128, usize>)
    ensures
        indexes(r@, es@),
{
    broadcast use vstd::std_specs::hash::group_hash_axioms;

    let mut index: HashMap<u128, usize> = HashMap::new();
    let mut i: usize = 0;
    while i < es.len()
        invariant
            i <= es@.len(),
            forall|k: u128|
                #[trigger] index@.contains_key(k) ==> index@[k] < i && change_key(
                    es@[index@[k] as int].0,
                ) == k,
            forall|q: int| 0 <= q < i ==> #[trigger] index@.contains_key(change_key(es@[q].0)),
        decreases es@.len() - i,
    {
        let k = key_of_change(es[i].0);
        index.insert(k, i);
        i = i + 1;
    }
    index
}

/// Where a parent is listed, if it is.
fn position_of(index: &HashMap<u128, usize>, es: &Vec<(ChangeId, Vec<ChangeId>)>, x: ChangeId) -> (r:
    Option<usize>)
    requires
        indexes(index@, es@),
    ensures
        match r {
            Some(p) => p < es@.len() && es@[p as int].0 == x,
            None => forall|q: int| 0 <= q < es@.len() ==> (#[trigger] es@[q]).0 != x,
        },
{
    broadcast use vstd::std_specs::hash::group_hash_axioms;

    let k = key_of_change(x);
    match index.get(&k) {
        Some(p) => {
            proof {
                lemma_change_key_injective(es@[*p as int].0, x);
            }
            Some(*p)
        },
        None => {
            proof {
                assert forall|q: int| 0 <= q < es@.len() implies (#[trigger] es@[q]).0 != x by {
                    if es@[q].0 == x {
                        assert(index@.contains_key(change_key(es@[q].0)));
                    }
                }
            }
            None
        },
    }
}

pub proof fn lemma_occurrences_push<T>(s: Seq<T>, v: T, x: T)
    ensures
        occurrences(s.push(v), x) == occurrences(s, x) + if v == x {
            1nat
        } else {
            0nat
        },
{
    assert(s.push(v).drop_last() =~= s);
}

/// The starting state of the sort: the number of parents of each change, the changes
/// listed for each parent once per time it is named, and the queue of changes without parents.
fn start_state(es: &Vec<(ChangeId, Vec<ChangeId>)>, index: &HashMap<u128, usize>) -> (r: (
    Vec<usize>,
    Vec<Vec<usize>>,
    VecDeque<usize>,
))
    requires
        keys_distinct(es@),
        indexes(index@, es@),
    ensures
        r.0@.len() == es@.len(),
        r.1@.len() == es@.len(),
        forall|q: int| 0 <= q < es@.len() ==> r.0@[q] == es@[q].1@.len(),
        forall|p: int, q: int|
            0 <= p < es@.len() && 0 <= q < es@.len() ==> #[trigger] occurrences(r.1@[p]@, q as usize)
                == occurrences(es@[q].1@, es@[p].0),
        forall|p: int, m: int|
            0 <= p < es@.len() && 0 <= m < r.1@[p]@.len() ==> r.1@[p]@[m] < es@.len(),
        r.2@.no_duplicates(),
        forall|m: int| 0 <= m < r.2@.len() ==> r.2@[m] < es@.len(),
        forall|q: int| 0 <= q < es@.len() ==> (r.0@[q] == 0 <==> r.2@.contains(q as usize)),
        forall|p: int| 0 <= p < es@.len() ==> r.1@[p]@ == children_upto(es@, p, es@.len() as int),
        r.2@ == roots_upto(es@, es@.len() as int),
{
    let n = es.len();
    let mut children: Vec<Vec<usize>> = Vec::new();
    let mut k: usize = 0;
    while k < n
        invariant
            n == es@.len(),
            k <= n,
            children@.len() == k,
            forall|p: int| 0 <= p < k ==> children@[p]@.len() == 0,
        decreases n - k,
    {
        children.push(Vec::new());
        k = k + 1;
    }
    let mut inputs: Vec<usize> = Vec::new();
    let mut queue: VecDeque<usize> = VecDeque::new();
    let mut i: usize = 0;
    while i < n
        invariant
            n == es@.len(),
            keys_distinct(es@),
            indexes(index@, es@),
            i <= n,
            inputs@.len() == i,
            children@.len() == n,
            forall|q: int| 0 <= q < i ==> inputs@[q] == es@[q].1@.len(),
            forall|p: int, q: int|
                0 <= p < n && 0 <= q < n ==> #[trigger] occurrences(children@[p]@, q as usize) == if q < i {
                    occurrences(es@[q].1@, es@[p].0)
                } else {
                    0
                },
            forall|p: int, m: int| 0 <= p < n && 0 <= m < children@[p]@.len() ==> children@[p]@[m] < i,
            queue@.no_duplicates(),
            forall|m: int| 0 <= m < queue@.len() ==> queue@[m] < i,
            forall|q: int| 0 <= q < i ==> (inputs@[q] == 0 <==> queue@.contains(q as usize)),
            forall|p: int| 0 <= p < n ==> children@[p]@ == children_upto(es@, p, i as int),
            queue@ == roots_upto(es@, i as int),
        decreases n - i,
    {
        let ps = &es[i].1;
        let ghost q_before = queue@;
        if ps.len() == 0 {
            proof {
                assert(!queue@.contains(i)) by {
                    if queue@.contains(i) {
                        let m = choose|m: int| 0 <= m < queue@.len() && queue@[m] == i;
                    }
                }
            }
            queue.push_back(i);
        }
        inputs.push(ps.len());
        proof {
            assert forall|q: int| 0 <= q <= i implies (inputs@[q] == 0 <==> queue@.contains(
                q as usize,
            )) by {
                if q < i {
                    if queue@.contains(q as usize) && ps@.len() == 0 {
                        let m = choose|m: int| 0 <= m < queue@.len() && queue@[m] == q as usize;
                        if m < q_before.len() {
                            assert(q_before[m] == q as usize);
                        }
                    }
                    if q_before.contains(q as usize) {
                        let m = choose|m: int| 0 <= m < q_before.len() && q_before[m] == q as usize;
                        assert(queue@[m] == q as usize);
                    }
                } else {
                    if ps@.len() == 0 {
                        assert(queue@[queue@.len() - 1] == i);
                    } else {
                        if queue@.contains(q as usize) {
                            let m = choose|m: int| 0 <= m < queue@.len() && queue@[m] == q as usize;
                        }
                    }
                }
            }
            assert(ps@.take(0) =~= Seq::<ChangeId>::empty());
            assert forall|p: int| 0 <= p < n implies occurrences(ps@.take(0), es@[p].0) == 0 by {}
        }
        let mut j: usize = 0;
        while j < ps.len()
            invariant
                n == es@.len(),
                keys_distinct(es@),
                indexes(index@, es@),
                i < n,
                j <= ps@.len(),
                *ps == es@[i as int].1,
                children@.len() == n,
                forall|p: int, q: int|
                    0 <= p < n && 0 <= q < n ==> #[trigger] occurrences(children@[p]@, q as usize) == if q < i {
                        occurrences(es@[q].1@, es@[p].0)
                    } else if q == i {
                        occurrences(ps@.take(j as int), es@[p].0)
                    } else {
                        0
                    },
                forall|p: int, m: int|
                    0 <= p < n && 0 <= m < children@[p]@.len() ==> children@[p]@[m] <= i,
                inputs@.len() == i + 1,
                forall|q: int| 0 <= q <= i ==> inputs@[q] == es@[q].1@.len(),
                queue@.no_duplicates(),
                forall|m: int| 0 <= m < queue@.len() ==> queue@[m] <= i,
                forall|q: int| 0 <= q <= i ==> (inputs@[q] == 0 <==> queue@.contains(q as usize)),
                forall|p: int|
                    0 <= p < n ==> children@[p]@ == children_upto(es@, p, i as int) + copies(
                        i,
                        occurrences(ps@.take(j as int), es@[p].0),
                    ),
                queue@ == roots_upto(es@, i + 1),
            decreases ps@.len() - j,
        {
            let x = ps[j];
            proof {
                assert forall|p: int| 0 <= p < n implies occurrences(ps@.take(j + 1), es@[p].0)
                    == occurrences(ps@.take(j as int), es@[p].0) + if x == es@[p].0 {
                    1nat
                } else {
                    0nat
                } by {
                    lemma_occurrences_take(ps@, j as int, es@[p].0);
                }
            }
            match position_of(index, es, x) {
                Some(p) => {
                    let ghost before = children@;
                    children[p].push(i);
                    proof {
                        assert(children@[p as int]@ == before[p as int]@.push(i));
                        assert(forall|pp: int| 0 <= pp < n && pp != p ==> children@[pp] == before[pp]);
                        assert(x == es@[p as int].0);
                        assert forall|pp: int, q: int| 0 <= pp < n && 0 <= q < n implies #[trigger] occurrences(
                            children@[pp]@,
                            q as usize,
                        ) == if q < i {
                            occurrences(es@[q].1@, es@[pp].0)
                        } else if q == i {
                            occurrences(ps@.take(j + 1), es@[pp].0)
                        } else {
                            0
                        } by {
                            if pp == p {
                                lemma_occurrences_push(before[pp]@, i, q as usize);
                                assert(occurrences(ps@.take(j + 1), es@[pp].0) == occurrences(
                                    ps@.take(j as int),
                                    es@[pp].0,
                                ) + 1);
                            } else {
                                assert(children@[pp] == before[pp]);
                                assert(es@[pp].0 != es@[p as int].0);
                            }
                        }
                    }
                },
                None => {
                    proof {
                        assert forall|pp: int| 0 <= pp < n implies x != es@[pp].0 by {}
                    }
                },
            }
            j = j + 1;
        }
        proof {
            assert(ps@.take(ps@.len() as int) =~= ps@);
            assert forall|p: int, q: int|
                0 <= p < n && 0 <= q < n implies #[trigger] occurrences(children@[p]@, q as usize) == if q < i + 1 {
                occurrences(es@[q].1@, es@[p].0)
            } else {
                0
            } by {
                if q == i {
                    assert(occurrences(ps@.take(ps@.len() as int), es@[p].0) == occurrences(es@[q].1@, es@[p].0));
                }
            }
        }
        i = i + 1;
    }
    (inputs, children, queue)
}


/// The parents of each listed change.
pub open spec fn entry_parents(es: Seq<(ChangeId, Vec<ChangeId>)>) -> Map<ChangeId, Seq<ChangeId>> {
    Map::new(
        |k: ChangeId| exists|i: int| 0 <= i < es.len() && (#[trigger] es[i]).0 == k,
        |k: ChangeId| es[choose|i: int| 0 <= i < es.len() && (#[trigger] es[i]).0 == k].1@,
    )
}

/// A list of changes with distinct keys lists the parents it gives.
pub proof fn lemma_entry_parents(es: Seq<(ChangeId, Vec<ChangeId>)>)
    requires
        keys_distinct(es),
    ensures
        lists(es, entry_parents(es)),
{
    let m = entry_parents(es);
    assert forall|i: int| 0 <= i < es.len() implies m.contains_key((#[trigger] es[i]).0) && m[es[i].0]
        == es[i].1@ by {
        let k = es[i].0;
        assert(exists|j: int| 0 <= j < es.len() && (#[trigger] es[j]).0 == k);
        let j = choose|j: int| 0 <= j < es.len() && (#[trigger] es[j]).0 == k;
        if j != i {
            if j < i {
                assert(es[j].0 != es[i].0);
            } else {
                assert(es[i].0 != es[j].0);
            }
        }
    }
}

/// Two maps that a list lists are the same map.
pub proof fn lemma_lists_unique(
    es: Seq<(ChangeId, Vec<ChangeId>)>,
    a: Map<ChangeId, Seq<ChangeId>>,
    b: Map<ChangeId, Seq<ChangeId>>,
)
    requires
        lists(es, a),
        lists(es, b),
    ensures
        a == b,
{
    assert forall|k: ChangeId| a.contains_key(k) implies b.contains_key(k) && a[k] == b[k] by {
        let i = choose|i: int| 0 <= i < es.len() && (#[trigger] es[i]).0 == k;
    }
    assert forall|k: ChangeId| b.contains_key(k) implies a.contains_key(k) by {
        let i = choose|i: int| 0 <= i < es.len() && (#[trigger] es[i]).0 == k;
    }
    assert(a =~= b);
}

/// Sorts the changes so that each comes after its parents: first the changes without
/// parents, in the order the map walks them, then each change as soon as all its parents
/// are taken. A change with a parent that never comes is left out. The result is the order
/// `sort_entries` gives the changes as the map walks them.
pub fn sort_changes(parents: ParentMap) -> (r: Vec<ChangeId>)
    ensures
        topological(r@, parent_lists(parents)),
        closed(r@, parent_lists(parents)),
        exists|w: Seq<(ChangeId, Vec<ChangeId>)>|
            lists(w, parent_lists(parents)) && r@ == #[trigger] kahn_order(w),
{
    let es = parents.entries();
    proof {
        assert(keys_distinct(es@));
        lemma_entry_parents(es@);
        lemma_lists_unique(es@, parent_lists(parents), entry_parents(es@));
    }
    let r = sort_entries(&es);
    proof {
        assert(lists(es@, parent_lists(parents)) && r@ == kahn_order(es@));
    }
    r
}

/// Sorts listed changes, each with its parents, so that each comes after its parents: first
/// the changes without parents, in the order they are listed, then each change as soon as all
/// its parents are taken, in the order a queue gives them. A change with a parent that never
/// comes is left out.
pub fn sort_entries(es: &Vec<(ChangeId, Vec<ChangeId>)>) -> (r: Vec<ChangeId>)
    requires
        keys_distinct(es@),
    ensures
        topological(r@, entry_parents(es@)),
        closed(r@, entry_parents(es@)),
        r@ == kahn_order(es@),
{
    let ghost m = entry_parents(es@);
    let ghost e = es@;
    proof {
        lemma_entry_parents(e);
    }
    let index = index_keys(es);
    let (mut inputs, children, mut queue) = start_state(es, &index);
    let n = es.len();
    let mut visited: Vec<bool> = Vec::new();
    let mut k: usize = 0;
    while k < n
        invariant
            k <= n,
            visited@.len() == k,
            forall|q: int| 0 <= q < k ==> !visited@[q],
        decreases n - k,
    {
        visited.push(false);
        k = k + 1;
    }
    proof {
        lemma_pending_none_all(e);
        lemma_count_false_none(visited@);
        assert(inputs@ =~= Seq::new(n as nat, |q: int| e[q].1@.len() as usize));
        assert(visited@ =~= Seq::new(n as nat, |q: int| false));
    }
    let mut ready: Vec<ChangeId> = Vec::new();
    let ghost mut rp: Seq<usize> = Seq::empty();
    proof {
        assert(ready@ + kahn_order(e) =~= kahn_order(e));
    }
    loop
        invariant_except_break
            n == e.len(),
            e == es@,
            forall|p: int| 0 <= p < n ==> children@[p]@ == children_upto(e, p, n as int),
            ready@ + kahn_run(e, (queue@, inputs@, visited@), count_false(visited@) + 1)
                == kahn_order(e),
            lists(e, m),
            keys_distinct(e),
            inputs@.len() == n,
            children@.len() == n,
            visited@.len() == n,
            forall|p: int, q: int|
                0 <= p < n && 0 <= q < n ==> #[trigger] occurrences(children@[p]@, q as usize)
                    == occurrences(e[q].1@, e[p].0),
            forall|p: int, j: int| 0 <= p < n && 0 <= j < children@[p]@.len() ==> children@[p]@[j] < n,
            forall|q: int| 0 <= q < n ==> (visited@[q] <==> rp.contains(q as usize)),
            ready@.len() == rp.len(),
            forall|a: int| 0 <= a < rp.len() ==> #[trigger] rp[a] < n,
            forall|a: int| 0 <= a < rp.len() ==> #[trigger] ready@[a] == e[rp[a] as int].0,
            rp.no_duplicates(),
            queue@.no_duplicates(),
            forall|j: int| 0 <= j < queue@.len() ==> queue@[j] < n && !visited@[queue@[j] as int],
            forall|q: int|
                0 <= q < n && !visited@[q] ==> inputs@[q] == pending(e[q].1@, ready@) && (inputs@[q]
                    == 0 <==> queue@.contains(q as usize)),
            forall|a: int, j: int|
                0 <= a < rp.len() && 0 <= j < e[rp[a] as int].1@.len() ==> #[trigger] ready@.take(
                    a,
                ).contains(e[rp[a] as int].1@[j]),
        ensures
            n == e.len(),
            lists(e, m),
            keys_distinct(e),
            ready@ == kahn_order(e),
            visited@.len() == n,
            forall|q: int| 0 <= q < n ==> (visited@[q] <==> rp.contains(q as usize)),
            ready@.len() == rp.len(),
            forall|a: int| 0 <= a < rp.len() ==> #[trigger] rp[a] < n,
            forall|a: int| 0 <= a < rp.len() ==> #[trigger] ready@[a] == e[rp[a] as int].0,
            rp.no_duplicates(),
            queue@.len() == 0,
            forall|q: int|
                0 <= q < n && !visited@[q] ==> inputs@[q] == pending(e[q].1@, ready@) && (inputs@[q]
                    == 0 <==> queue@.contains(q as usize)),
            forall|a: int, j: int|
                0 <= a < rp.len() && 0 <= j < e[rp[a] as int].1@.len() ==> #[trigger] ready@.take(
                    a,
                ).contains(e[rp[a] as int].1@[j]),
        decreases count_false(visited@),
    {
        let ghost q0 = queue@;
        let ghost st0 = (queue@, inputs@, visited@);
        match queue.pop_front() {
            None => {
                proof {
                    assert(kahn_run(e, st0, count_false(visited@) + 1) =~= Seq::<ChangeId>::empty());
                    assert(ready@ + kahn_run(e, st0, count_false(visited@) + 1) =~= ready@);
                }
                break;
            },
            Some(c) => {
                let ghost r0 = ready@;
                let ghost v0 = visited@;
                let ghost i0 = inputs@;
                let ghost q1 = q0.skip(1);
                proof {
                    assert(q0[0] == c);
                    assert(q0.contains(c));
                    assert(!v0[c as int]);
                    assert(inputs@[c as int] == 0);
                    lemma_pending_zero(e[c as int].1@, r0);
                    assert(!r0.contains(e[c as int].0)) by {
                        if r0.contains(e[c as int].0) {
                            let a = choose|a: int| 0 <= a < r0.len() && r0[a] == e[c as int].0;
                            assert(e[rp[a] as int].0 == e[c as int].0);
                            assert(rp.contains(c));
                        }
                    }
                    lemma_count_false_set(v0, c as int);
                    assert(queue@ == q0.subrange(1, q0.len() as int));
                }
                visited.set(c, true);
                ready.push(es[c].0);
                proof {
                    let old_rp = rp;
                    rp = rp.push(c);
                    assert(visited@ == v0.update(c as int, true));
                    assert(ready@ == r0.push(es@[c as int].0));
                    assert forall|a: int| 0 <= a < rp.len() implies rp[a] < n && ready@[a] == e[rp[
                        a
                    ] as int].0 by {
                        if a < old_rp.len() {
                            assert(rp[a] == old_rp[a]);
                            assert(ready@[a] == r0[a]);
                        }
                    }
                    assert(rp.no_duplicates()) by {
                        assert forall|a: int, b: int| 0 <= a < b < rp.len() implies rp[a] != rp[b] by {
                            if b == old_rp.len() {
                                assert(old_rp.contains(rp[a]));
                            } else {
                                assert(old_rp[a] == rp[a] && old_rp[b] == rp[b]);
                            }
                        }
                    }
                    assert forall|q: int| 0 <= q < n implies (visited@[q] <==> rp.contains(q as usize)) by {
                        if q == c {
                            assert(rp[old_rp.len() as int] == c);
                        } else {
                            if rp.contains(q as usize) {
                                let a = choose|a: int| 0 <= a < rp.len() && rp[a] == q as usize;
                                assert(old_rp[a] == q as usize);
                            }
                            if old_rp.contains(q as usize) {
                                let a = choose|a: int| 0 <= a < old_rp.len() && old_rp[a] == q as usize;
                                assert(rp[a] == q as usize);
                            }
                        }
                    }
                    assert forall|a: int, j: int|
                        0 <= a < rp.len() && 0 <= j < e[rp[a] as int].1@.len() implies #[trigger] ready@.take(
                            a,
                        ).contains(e[rp[a] as int].1@[j]) by {
                        if a < old_rp.len() {
                            assert(ready@.take(a) =~= r0.take(a));
                            assert(old_rp[a] == rp[a]);
                        } else {
                            assert(ready@.take(a) =~= r0);
                        }
                    }
                    assert forall|j: int| 0 <= j < queue@.len() implies queue@[j] < n && !visited@[
                        queue@[j] as int
                    ] by {
                        assert(queue@[j] == q0[j + 1]);
                        assert(q0[j + 1] != q0[0]);
                    }
                    assert forall|q: int|
                        0 <= q < n && !visited@[q] implies (inputs@[q] == 0 <==> queue@.contains(
                        q as usize,
                    )) by {
                        if queue@.contains(q as usize) {
                            let j = choose|j: int| 0 <= j < queue@.len() && queue@[j] == q as usize;
                            assert(q0[j + 1] == q as usize);
                        }
                        if q0.contains(q as usize) {
                            let j = choose|j: int| 0 <= j < q0.len() && q0[j] == q as usize;
                            assert(j != 0);
                            assert(queue@[j - 1] == q as usize);
                        }
                    }
                    assert forall|q: int| 0 <= q < n && !visited@[q] implies pending(e[q].1@, r0)
                        >= occurrences(children@[c as int]@, q as usize) && pending(e[q].1@, ready@)
                        == pending(e[q].1@, r0) - occurrences(children@[c as int]@, q as usize) by {
                        assert(occurrences(children@[c as int]@, q as usize) == occurrences(
                            e[q].1@,
                            e[c as int].0,
                        ));
                        lemma_pending_push(e[q].1@, r0, e[c as int].0);
                    }
                }
                let ch = &children[c];
                let mut j: usize = 0;
                while j < ch.len()
                    invariant
                        n == e.len(),
                        inputs@.len() == n,
                        visited@.len() == n,
                        c < n,
                        visited@[c as int],
                        *ch == children@[c as int],
                        j <= ch@.len(),
                        forall|t: int| 0 <= t < ch@.len() ==> ch@[t] < n,
                        queue@.no_duplicates(),
                        forall|t: int|
                            0 <= t < queue@.len() ==> queue@[t] < n && !visited@[queue@[t] as int],
                        forall|q: int|
                            0 <= q < n && !visited@[q] ==> pending(e[q].1@, r0) >= occurrences(
                                ch@,
                                q as usize,
                            ),
                        forall|q: int|
                            0 <= q < n && !visited@[q] ==> inputs@[q] == pending(e[q].1@, r0)
                                - occurrences(ch@.take(j as int), q as usize) && (inputs@[q] == 0
                                <==> queue@.contains(q as usize)),
                        (inputs@, queue@) == relax(i0, q1, visited@, ch@.take(j as int)),
                    decreases ch@.len() - j,
                {
                    let x = ch[j];
                    proof {
                        assert forall|q: int| 0 <= q < n implies #[trigger] occurrences(
                            ch@.take(j + 1),
                            q as usize,
                        ) == occurrences(ch@.take(j as int), q as usize) + if x == q as usize {
                            1nat
                        } else {
                            0nat
                        } && occurrences(ch@.take(j + 1), q as usize) <= occurrences(
                            ch@,
                            q as usize,
                        ) by {
                            lemma_occurrences_take(ch@, j as int, q as usize);
                            if j + 1 < ch@.len() {
                                lemma_occurrences_take(ch@, j + 1, q as usize);
                            } else {
                                assert(ch@.take(j + 1) =~= ch@);
                            }
                        }
                    }
                    let ghost qb = queue@;
                    let ghost ib = inputs@;
                    if !visited[x] {
                        if inputs[x] > 0 {
                            let left = inputs[x] - 1;
                            inputs.set(x, left);
                            if left == 0 {
                                proof {
                                    assert(!queue@.contains(x));
                                }
                                queue.push_back(x);
                            }
                        }
                    }
                    proof {
                        assert forall|q: int|
                            0 <= q < n && !visited@[q] implies (inputs@[q] == 0 <==> queue@.contains(
                            q as usize,
                        )) by {
                            if q != x as int {
                                assert(inputs@[q] == ib[q]);
                                if queue@.contains(q as usize) {
                                    let t = choose|t: int|
                                        0 <= t < queue@.len() && queue@[t] == q as usize;
                                    if t < qb.len() {
                                        assert(qb[t] == q as usize);
                                    }
                                }
                                if qb.contains(q as usize) {
                                    let t = choose|t: int| 0 <= t < qb.len() && qb[t] == q as usize;
                                    assert(queue@[t] == q as usize);
                                }
                            } else {
                                assert(ib[q] == 0 <==> qb.contains(q as usize));
                                if ib[q] > 0 {
                                    assert(inputs@[q] == ib[q] - 1);
                                    if ib[q] == 1 {
                                        assert(queue@ == qb.push(x));
                                        assert(queue@[queue@.len() - 1] == x);
                                    } else {
                                        assert(queue@ == qb);
                                    }
                                } else {
                                    assert(queue@ == qb);
                                    assert(inputs@[q] == ib[q]);
                                }
                            }
                        }
                    }
                    proof {
                        assert(ch@.take(j + 1).drop_last() =~= ch@.take(j as int));
                        assert(ch@.take(j + 1).last() == x);
                        if !visited@[x as int] && ib[x as int] > 0 {
                            if ib[x as int] == 1 {
                                assert(queue@ =~= qb.push(x));
                            } else {
                                assert(queue@ =~= qb);
                            }
                            assert(inputs@ =~= ib.update(x as int, (ib[x as int] - 1) as usize));
                        } else {
                            assert(queue@ =~= qb);
                            assert(inputs@ =~= ib);
                        }
                        assert((inputs@, queue@) == relax(i0, q1, visited@, ch@.take(j + 1)));
                    }
                    j = j + 1;
                }
                proof {
                    assert(ch@.take(ch@.len() as int) =~= ch@);
                    assert(kahn_step(e, st0) == (Some(e[c as int].0), (queue@, inputs@, visited@)));
                    assert(count_false(visited@) + 1 == count_false(v0));
                    assert(ready@ + kahn_run(e, (queue@, inputs@, visited@), count_false(visited@) + 1)
                        =~= r0 + kahn_run(e, st0, count_false(v0) + 1));
                }
            },
        }
    }
    proof {
        let r = ready@;
        assert(r.no_duplicates()) by {
            assert forall|a: int, b: int| 0 <= a < r.len() && 0 <= b < r.len() && a != b implies r[a]
                != r[b] by {
                if r[a] == r[b] {
                    assert(e[rp[a] as int].0 == e[rp[b] as int].0);
                    if rp[a] != rp[b] {
                        if rp[a] < rp[b] {
                            assert(e[rp[a] as int].0 != e[rp[b] as int].0);
                        } else {
                            assert(e[rp[b] as int].0 != e[rp[a] as int].0);
                        }
                    }
                }
            }
        }
        assert forall|a: int| 0 <= a < r.len() implies m.contains_key(#[trigger] r[a]) by {
            assert(m.contains_key(e[rp[a] as int].0));
        }
        assert forall|a: int, j: int|
            0 <= a < r.len() && 0 <= j < m[r[a]].len() implies #[trigger] r.take(a).contains(
            m[r[a]][j],
        ) by {
            assert(m[e[rp[a] as int].0] == e[rp[a] as int].1@);
        }
        assert forall|k: ChangeId|
            #[trigger] m.contains_key(k) && (forall|j: int| 0 <= j < m[k].len() ==> r.contains(m[k][j]))
                implies r.contains(k) by {
            let q = choose|q: int| 0 <= q < e.len() && (#[trigger] e[q]).0 == k;
            assert(m[k] == e[q].1@);
            if !visited@[q] {
                lemma_pending_zero(e[q].1@, r);
                assert(inputs@[q] == 0);
                assert(queue@.contains(q as usize));
            }
            assert(rp.contains(q as usize));
            let a = choose|a: int| 0 <= a < rp.len() && rp[a] == q as usize;
            assert(r[a] == k);
        }
    }
    ready
}

/// With nothing done, every entry is pending.
pub proof fn lemma_pending_none_all(e: Seq<(ChangeId, Vec<ChangeId>)>)
    ensures
        forall|q: int| 0 <= q < e.len() ==> pending(#[trigger] e[q].1@, Seq::empty()) == e[q].1@.len(),
{
    assert forall|q: int| 0 <= q < e.len() implies pending(#[trigger] e[q].1@, Seq::empty())
        == e[q].1@.len() by {
        lemma_pending_none(e[q].1@);
    }
}

} // verus!
