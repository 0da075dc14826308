use bimap::BiHashMap;
use vstd::prelude::*;

verus! {

#[verifier::external_type_specification]
#[verifier::external_body]
#[verifier::reject_recursive_types(L)]
#[verifier::reject_recursive_types(R)]
#[verifier::reject_recursive_types(LS)]
#[verifier::reject_recursive_types(RS)]
pub struct ExBiHashMap<L, R, LS, RS>(BiHashMap<L, R, LS, RS>);

/// The pairs that a bimap of names and numeric ids holds, keyed by the name.
pub uninterp spec fn name_pairs(m: BiHashMap<String, u32>) -> Map<Seq<char>, u32>;

/// `m` without the pairs whose id is `v`.
pub open spec fn without_id(m: Map<Seq<char>, u32>, v: u32) -> Map<Seq<char>, u32> {
    Map::new(|k: Seq<char>| m.contains_key(k) && m[k] != v, |k: Seq<char>| m[k])
}

/// `m` after putting in the pair `l <> r`: a pair with the name `l`, and a pair with the
/// id `r`, are dropped first, so that each name and each id occurs once.
pub open spec fn with_pair(m: Map<Seq<char>, u32>, l: Seq<char>, r: u32) -> Map<Seq<char>, u32> {
    without_id(m.remove(l), r).insert(l, r)
}

/// Whether `m` holds `n` pairs.
pub open spec fn counted(m: Map<Seq<char>, u32>, n: nat) -> bool {
    m.dom().finite() && m.len() == n
}

/// Whether some name has the id `v`.
pub open spec fn has_id(m: Map<Seq<char>, u32>, v: u32) -> bool {
    exists|k: Seq<char>| #[trigger] m.contains_key(k) && m[k] == v
}

/// No two names share an id.
pub open spec fn injective(m: Map<Seq<char>, u32>) -> bool {
    forall|a: Seq<char>, b: Seq<char>|
        #![trigger m[a], m[b]]
        m.contains_key(a) && m.contains_key(b) && m[a] == m[b] ==> a == b
}

/// Whether the pairs of the list `s` are pairs of `m`, with no name twice.
pub open spec fn within(s: Seq<(String, u32)>, m: Map<Seq<char>, u32>) -> bool {
    &&& forall|i: int| 0 <= i < s.len() ==> #[trigger] pair_in(s[i], m)
    &&& forall|i: int, j: int| 0 <= i < j < s.len() ==> #[trigger] s[i].0@ != #[trigger] s[j].0@
}

/// Whether the name and id pair `e` is a pair of `m`.
pub open spec fn pair_in(e: (String, u32), m: Map<Seq<char>, u32>) -> bool {
    m.contains_key(e.0@) && m[e.0@] == e.1
}

/// Whether the list of name and id pairs `s` holds each pair of `m` once, in any order.
pub open spec fn lists(s: Seq<(String, u32)>, m: Map<Seq<char>, u32>) -> bool {
    &&& s.len() == m.len()
    &&& within(s, m)
    &&& forall|k: Seq<char>| #[trigger] m.contains_key(k) ==> exists|i: int| 0 <= i < s.len() && s[i].0@ == k
}

/// The pairs of the list `s`, put in one after the other.
pub open spec fn to_map(s: Seq<(String, u32)>) -> Map<Seq<char>, u32>
    decreases s.len(),
{
    if s.len() == 0 {
        Map::empty()
    } else {
        to_map(s.drop_last()).insert(s.last().0@, s.last().1)
    }
}

/// `a` with the pairs of `b` put in: a pair of `a` stays when neither its name nor its
/// id occurs in `b`.
pub open spec fn overlay(a: Map<Seq<char>, u32>, b: Map<Seq<char>, u32>) -> Map<Seq<char>, u32> {
    Map::new(
        |k: Seq<char>| b.contains_key(k) || (a.contains_key(k) && !has_id(b, a[k])),
        |k: Seq<char>|
            if b.contains_key(k) {
                b[k]
            } else {
                a[k]
            },
    )
}

/// `m` with the name `k` numbered as it would be by a call of `get_or_insert`.
pub open spec fn add_if_absent(m: Map<Seq<char>, u32>, k: Seq<char>) -> Map<Seq<char>, u32> {
    if m.contains_key(k) {
        m
    } else {
        with_pair(m, k, m.len() as u32)
    }
}

/// `m` with the names of `s` numbered one after the other.
pub open spec fn absorb(m: Map<Seq<char>, u32>, s: Seq<Seq<char>>) -> Map<Seq<char>, u32>
    decreases s.len(),
{
    if s.len() == 0 {
        m
    } else {
        add_if_absent(absorb(m, s.drop_last()), s.last())
    }
}

/// Whether `s` holds the names of `m`, in increasing order of their ids.
pub open spec fn by_id(s: Seq<Seq<char>>, m: Map<Seq<char>, u32>) -> bool {
    &&& forall|i: int| 0 <= i < s.len() ==> #[trigger] m.contains_key(s[i])
    &&& forall|k: Seq<char>| #[trigger] m.contains_key(k) ==> exists|i: int| 0 <= i < s.len() && s[i] == k
    &&& forall|i: int, j: int| 0 <= i < j < s.len() ==> #[trigger] m[s[i]] < #[trigger] m[s[j]]
}

/// Listing the names of a map by increasing id leaves no choice: two such lists are
/// the same.
pub proof fn lemma_by_id_unique(s1: Seq<Seq<char>>, s2: Seq<Seq<char>>, m: Map<Seq<char>, u32>)
    requires
        injective(m),
        by_id(s1, m),
        by_id(s2, m),
    ensures
        s1 == s2,
    decreases s1.len(),
{
    if s1.len() == 0 {
        if s2.len() > 0 {
            assert(m.contains_key(s2[0]));
        }
        assert(s1 =~= s2);
    } else {
        assert(m.contains_key(s1[0]));
        let i2 = choose|i: int| 0 <= i < s2.len() && s2[i] == s1[0];
        assert(s2.len() > 0);
        assert(m.contains_key(s2[0]));
        let i1 = choose|i: int| 0 <= i < s1.len() && s1[i] == s2[0];
        if i2 > 0 {
            assert(m[s2[0]] < m[s2[i2]]);
            if i1 > 0 {
                assert(m[s1[0]] < m[s1[i1]]);
            }
        }
        assert(s1[0] == s2[0]);
        let m2 = m.remove(s1[0]);
        let t1 = s1.drop_first();
        let t2 = s2.drop_first();
        assert forall|i: int| 0 <= i < t1.len() implies #[trigger] m2.contains_key(t1[i]) by {
            assert(t1[i] == s1[i + 1]);
            assert(m[s1[0]] < m[s1[i + 1]]);
        }
        assert forall|i: int| 0 <= i < t2.len() implies #[trigger] m2.contains_key(t2[i]) by {
            assert(t2[i] == s2[i + 1]);
            assert(m[s2[0]] < m[s2[i + 1]]);
        }
        assert forall|k: Seq<char>| #[trigger] m2.contains_key(k) implies exists|i: int|
            0 <= i < t1.len() && t1[i] == k by {
            let i = choose|i: int| 0 <= i < s1.len() && s1[i] == k;
            assert(t1[i - 1] == k);
        }
        assert forall|k: Seq<char>| #[trigger] m2.contains_key(k) implies exists|i: int|
            0 <= i < t2.len() && t2[i] == k by {
            let i = choose|i: int| 0 <= i < s2.len() && s2[i] == k;
            assert(t2[i - 1] == k);
        }
        assert forall|i: int, j: int| 0 <= i < j < t1.len() implies #[trigger] m2[t1[i]]
            < #[trigger] m2[t1[j]] by {
            assert(t1[i] == s1[i + 1] && t1[j] == s1[j + 1]);
        }
        assert forall|i: int, j: int| 0 <= i < j < t2.len() implies #[trigger] m2[t2[i]]
            < #[trigger] m2[t2[j]] by {
            assert(t2[i] == s2[i + 1] && t2[j] == s2[j + 1]);
        }
        lemma_by_id_unique(t1, t2, m2);
        assert(s1 =~= seq![s1[0]] + t1);
        assert(s2 =~= seq![s2[0]] + t2);
    }
}

/// The first `i` pairs of a listing of `m` are pairs of `m`, and their names are those
/// of the first `i` items.
pub proof fn lemma_to_map_prefix(s: Seq<(String, u32)>, m: Map<Seq<char>, u32>, i: int)
    requires
        lists(s, m),
        0 <= i <= s.len(),
    ensures
        forall|k: Seq<char>| #[trigger] to_map(s.take(i)).contains_key(k) ==> m.contains_key(k)
            && to_map(s.take(i))[k] == m[k] && exists|j: int| 0 <= j < i && s[j].0@ == k,
        forall|j: int| 0 <= j < i ==> #[trigger] to_map(s.take(i)).contains_key(s[j].0@),
        i < s.len() ==> !to_map(s.take(i)).contains_key(s[i].0@),
    decreases i,
{
    if i > 0 {
        lemma_to_map_prefix(s, m, i - 1);
        assert(s.take(i).drop_last() =~= s.take(i - 1));
        assert(s.take(i).last() == s[i - 1]);
        assert forall|k: Seq<char>| #[trigger] to_map(s.take(i)).contains_key(k) implies m.contains_key(k)
            && to_map(s.take(i))[k] == m[k] && exists|j: int| 0 <= j < i && s[j].0@ == k by {
            if k != s[i - 1].0@ {
                let j = choose|j: int| 0 <= j < i - 1 && s[j].0@ == k;
                assert(s[j].0@ == k);
            } else {
                assert(pair_in(s[i - 1], m));
            }
        }
        if i < s.len() {
            if to_map(s.take(i)).contains_key(s[i].0@) {
                let j = choose|j: int| 0 <= j < i && s[j].0@ == s[i].0@;
                assert(s[j].0@ != s[i].0@);
            }
        }
    }
}

proof fn lemma_has_id_insert(p: Map<Seq<char>, u32>, k: Seq<char>, v: u32, w: u32)
    requires
        !p.contains_key(k),
    ensures
        has_id(p.insert(k, v), w) == (has_id(p, w) || w == v),
{
    if has_id(p.insert(k, v), w) {
        let y = choose|y: Seq<char>| #[trigger] p.insert(k, v).contains_key(y) && p.insert(k, v)[y] == w;
        if y != k {
            assert(p.contains_key(y) && p[y] == w);
        }
    }
    if has_id(p, w) {
        let y = choose|y: Seq<char>| #[trigger] p.contains_key(y) && p[y] == w;
        assert(p.insert(k, v).contains_key(y) && p.insert(k, v)[y] == w);
    }
    if w == v {
        assert(p.insert(k, v).contains_key(k) && p.insert(k, v)[k] == w);
    }
}

/// Putting one more pair of `b` into the overlay of `a` by the other pairs of `b` gives
/// the overlay by all of them.
proof fn lemma_overlay_step(a: Map<Seq<char>, u32>, p: Map<Seq<char>, u32>, k: Seq<char>, v: u32)
    requires
        !p.contains_key(k),
        !has_id(p, v),
    ensures
        with_pair(overlay(a, p), k, v) == overlay(a, p.insert(k, v)),
{
    let lhs = with_pair(overlay(a, p), k, v);
    let rhs = overlay(a, p.insert(k, v));
    assert forall|x: Seq<char>| #[trigger] lhs.contains_key(x) == rhs.contains_key(x) by {
        if x != k && !p.contains_key(x) && a.contains_key(x) {
            lemma_has_id_insert(p, k, v, a[x]);
        }
        if p.contains_key(x) {
            assert(p[x] != v);
        }
    }
    assert(lhs =~= rhs);
}

/// Calls `BiHashMap::new`: an empty bimap.
#[verifier::external_body]
fn bimap_new() -> (r: BiHashMap<String, u32>)
    ensures
        name_pairs(r) =~= Map::empty(),
{
    BiHashMap::new()
}

/// Calls `BiHashMap::insert`, which removes the pair of the name and the pair of the id,
/// then puts in the new pair; the overwritten pairs it returns are dropped. A bimap holds
/// finitely many pairs.
#[verifier::external_body]
fn bimap_insert(m: &mut BiHashMap<String, u32>, left: String, right: u32)
    ensures
        name_pairs(*final(m)) == with_pair(name_pairs(*old(m)), left@, right),
        name_pairs(*final(m)).dom().finite(),
{
    m.insert(left, right);
}

/// Calls `BiHashMap::get_by_left`: the id paired with the name, if any.
#[verifier::external_body]
fn bimap_get_by_left<'a>(m: &'a BiHashMap<String, u32>, left: &String) -> (r: Option<&'a u32>)
    ensures
        r is Some <==> name_pairs(*m).contains_key(left@),
        r matches Some(v) ==> *v == name_pairs(*m)[left@],
{
    m.get_by_left(left)
}

/// Calls `BiHashMap::get_by_right`: the name paired with the id, if any.
#[verifier::external_body]
fn bimap_get_by_right<'a>(m: &'a BiHashMap<String, u32>, right: &u32) -> (r: Option<&'a String>)
    ensures
        r is Some <==> has_id(name_pairs(*m), *right),
        r matches Some(s) ==> name_pairs(*m).contains_key(s@) && name_pairs(*m)[s@] == *right,
{
    m.get_by_right(right)
}

/// Calls `BiHashMap::remove_by_left`; the removed pair it returns is dropped. A bimap
/// holds finitely many pairs.
#[verifier::external_body]
fn bimap_remove_by_left(m: &mut BiHashMap<String, u32>, left: &String)
    ensures
        name_pairs(*final(m)) == name_pairs(*old(m)).remove(left@),
        name_pairs(*final(m)).dom().finite(),
{
    m.remove_by_left(left);
}

/// Calls `BiHashMap::remove_by_right`; the removed pair it returns is dropped. A bimap
/// holds finitely many pairs.
#[verifier::external_body]
fn bimap_remove_by_right(m: &mut BiHashMap<String, u32>, right: &u32)
    ensures
        name_pairs(*final(m)) == without_id(name_pairs(*old(m)), *right),
        name_pairs(*final(m)).dom().finite(),
{
    m.remove_by_right(right);
}

/// Calls `BiHashMap::len`: the number of pairs.
#[verifier::external_body]
fn bimap_len(m: &BiHashMap<String, u32>) -> (r: usize)
    ensures
        counted(name_pairs(*m), r as nat),
{
    m.len()
}

/// Walks `BiHashMap::iter` and copies each pair out. The order is that of the underlying
/// hash table, which a per-process seed decides, so it is left open.
#[verifier::external_body]
fn bimap_entries(m: &BiHashMap<String, u32>) -> (r: Vec<(String, u32)>)
    ensures
        lists(r@, name_pairs(*m)),
{
    m.iter().map(|(l, r)| (l.clone(), *r)).collect()
}

/// Calls `BiHashMap::eq`, which holds when both hold the same pairs.
#[verifier::external_body]
fn bimap_eq(a: &BiHashMap<String, u32>, b: &BiHashMap<String, u32>) -> (r: bool)
    ensures
        r == (name_pairs(*a) == name_pairs(*b)),
{
    a == b
}

/// Calls `BiHashMap::clone`, which inserts each pair of the cloned map into a new bimap.
#[verifier::external_body]
fn bimap_clone(m: &BiHashMap<String, u32>) -> (r: BiHashMap<String, u32>)
    ensures
        name_pairs(r) == name_pairs(*m),
{
    m.clone()
}

/// Numbers names: a map from each name to a unique `u32` id, and back. The binary format
/// writes the id in place of the name.
#[derive(Debug)]
pub struct EncoderMap {
    map: BiHashMap<String, u32>,
}

impl View for EncoderMap {
    type V = Map<Seq<char>, u32>;

    closed spec fn view(&self) -> Map<Seq<char>, u32> {
        name_pairs(self.map)
    }
}

impl Clone for EncoderMap {
    fn clone(&self) -> (r: Self)
        ensures
            r@ == self@,
    {
        self.duplicate()
    }
}

impl Default for EncoderMap {
    fn default() -> (r: Self)
        ensures
            r.wf(),
            r@ == Map::<Seq<char>, u32>::empty(),
    {
        EncoderMap::new()
    }
}

impl PartialEq for EncoderMap {
    fn eq(&self, other: &Self) -> (r: bool) {
        bimap_eq(&self.map, &other.map)
    }
}

impl vstd::std_specs::cmp::PartialEqSpecImpl for EncoderMap {
    open spec fn obeys_eq_spec() -> bool {
        true
    }

    open spec fn eq_spec(&self, other: &Self) -> bool {
        self@ == other@
    }
}

impl Eq for EncoderMap {

}

impl EncoderMap {
    /// Finitely many pairs; every name has one id and every id one name.
    pub open spec fn wf(&self) -> bool {
        &&& self@.dom().finite()
        &&& injective(self@)
    }

    pub fn new() -> (r: EncoderMap)
        ensures
            r.wf(),
            r@ == Map::<Seq<char>, u32>::empty(),
    {
        EncoderMap { map: bimap_new() }
    }

    /// A copy with the same pairs.
    pub fn duplicate(&self) -> (r: EncoderMap)
        ensures
            r@ == self@,
    {
        EncoderMap { map: bimap_clone(&self.map) }
    }

    /// Pairs `key` with `value`, dropping the pair that held either before.
    pub fn insert(&mut self, key: String, value: u32)
        requires
            old(self).wf(),
        ensures
            final(self).wf(),
            final(self)@ == with_pair(old(self)@, key@, value),
    {
        bimap_insert(&mut self.map, key, value);
    }

    /// The name paired with the id `id`.
    pub fn get_key(&self, id: &u32) -> (r: Option<&String>)
        requires
            self.wf(),
        ensures
            r is Some <==> has_id(self@, *id),
            r matches Some(s) ==> self@.contains_key(s@) && self@[s@] == *id,
    {
        bimap_get_by_right(&self.map, id)
    }

    /// The id paired with the name `key`.
    pub fn get_value(&self, key: &String) -> (r: Option<&u32>)
        ensures
            r is Some <==> self@.contains_key(key@),
            r matches Some(v) ==> *v == self@[key@],
    {
        bimap_get_by_left(&self.map, key)
    }

    /// Drops the pair of the name `left`, if any.
    pub fn remove_by_left(&mut self, left: &String)
        requires
            old(self).wf(),
        ensures
            final(self).wf(),
            final(self)@ == old(self)@.remove(left@),
    {
        bimap_remove_by_left(&mut self.map, left);
    }

    /// Drops the pair of the id `right`, if any.
    pub fn remove_by_right(&mut self, right: &u32)
        requires
            old(self).wf(),
        ensures
            final(self).wf(),
            final(self)@ == without_id(old(self)@, *right),
    {
        bimap_remove_by_right(&mut self.map, right);
    }

    /// The id of `key`; a name not there yet is given the number of pairs as its id,
    /// cut to 32 bits.
    pub fn get_or_insert(&mut self, key: &String) -> (r: u32)
        requires
            old(self).wf(),
        ensures
            final(self).wf(),
            old(self)@.contains_key(key@) ==> r == old(self)@[key@] && final(self)@ == old(self)@,
            !old(self)@.contains_key(key@) ==> r == old(self)@.len() as u32 && final(self)@
                == with_pair(old(self)@, key@, r),
    {
        match bimap_get_by_left(&self.map, key) {
            Some(id) => *id,
            None => {
                let id = bimap_len(&self.map) as u32;
                bimap_insert(&mut self.map, key.clone(), id);
                id
            },
        }
    }

    /// `other` with the names of `self` numbered after its own, in the order of their
    /// ids in `self`; a name that `other` has keeps its id there.
    pub fn as_per(&self, other: &EncoderMap) -> (r: EncoderMap)
        requires
            self.wf(),
            other.wf(),
        ensures
            r.wf(),
            exists|s: Seq<Seq<char>>| by_id(s, self@) && r@ == absorb(other@, s),
    {
        let mut clone = other.duplicate();
        let mut work = bimap_entries(&self.map);
        let ghost m = self@;
        let ghost mut done: Seq<Seq<char>> = Seq::empty();
        assert(clone@ == absorb(other@, done));
        assert(lists(work@, m));
        while work.len() > 0
            invariant
                clone.wf(),
                injective(m),
                m == self@,
                clone@ == absorb(other@, done),
                within(work@, m),
                forall|i: int| 0 <= i < done.len() ==> #[trigger] m.contains_key(done[i]),
                forall|i: int, j: int| 0 <= i < j < done.len() ==> #[trigger] m[done[i]] < #[trigger] m[done[j]],
                forall|i: int, j: int| 0 <= i < done.len() && 0 <= j < work@.len() ==> #[trigger] m[done[i]]
                    < #[trigger] work@[j].1,
                forall|k: Seq<char>| #[trigger] m.contains_key(k) ==> (exists|i: int| 0 <= i < done.len() && done[i] == k)
                    || (exists|j: int| 0 <= j < work@.len() && work@[j].0@ == k),
            decreases work@.len(),
        {
            let mut mi: usize = 0;
            let mut i: usize = 1;
            while i < work.len()
                invariant
                    0 <= mi < i <= work@.len(),
                    forall|j: int| 0 <= j < i ==> work@[mi as int].1 <= #[trigger] work@[j].1,
                decreases work@.len() - i,
            {
                if work[i].1 < work[mi].1 {
                    mi = i;
                }
                i = i + 1;
            }
            let ghost before = work@;
            let (k, v) = work.remove(mi);
            proof {
                assert forall|j: int| 0 <= j < work@.len() implies v < #[trigger] work@[j].1 by {
                    let jj = if j < mi { j } else { j + 1 };
                    assert(work@[j] == before[jj]);
                    assert(v <= before[jj].1);
                    assert(pair_in(before[mi as int], m));
                    assert(pair_in(before[jj], m));
                    if v == before[jj].1 {
                        assert(m[before[mi as int].0@] == m[before[jj].0@]);
                    }
                }
                assert forall|kk: Seq<char>| #[trigger] m.contains_key(kk) implies (exists|i: int|
                    0 <= i < done.push(k@).len() && done.push(k@)[i] == kk) || (exists|j: int|
                    0 <= j < work@.len() && work@[j].0@ == kk) by {
                    if exists|i: int| 0 <= i < done.len() && done[i] == kk {
                        let i = choose|i: int| 0 <= i < done.len() && done[i] == kk;
                        assert(done.push(k@)[i] == kk);
                    } else {
                        let j = choose|j: int| 0 <= j < before.len() && before[j].0@ == kk;
                        if j == mi {
                            assert(done.push(k@)[done.len() as int] == kk);
                        } else if j < mi {
                            assert(work@[j] == before[j]);
                        } else {
                            assert(work@[j - 1] == before[j]);
                        }
                    }
                }
                assert forall|i: int| 0 <= i < work@.len() implies #[trigger] pair_in(work@[i], m) by {
                    if i < mi {
                        assert(work@[i] == before[i]);
                    } else {
                        assert(work@[i] == before[i + 1]);
                    }
                }
                assert forall|i: int, j: int| 0 <= i < j < work@.len() implies #[trigger] work@[i].0@
                    != #[trigger] work@[j].0@ by {
                    let ii = if i < mi { i } else { i + 1 };
                    let jj = if j < mi { j } else { j + 1 };
                    assert(work@[i] == before[ii] && work@[j] == before[jj]);
                }
            }
            proof {
                assert(pair_in(before[mi as int], m));
                assert forall|i: int| 0 <= i < done.len() implies #[trigger] m[done[i]] < v by {
                    assert(m[done[i]] < before[mi as int].1);
                }
            }
            clone.get_or_insert(&k);
            proof {
                let old_done = done;
                assert(done.push(k@).drop_last() =~= done);
                done = done.push(k@);
                assert forall|i: int| 0 <= i < done.len() implies #[trigger] m.contains_key(done[i]) by {
                    if i < old_done.len() {
                        assert(done[i] == old_done[i]);
                    }
                }
                assert forall|i: int, j: int| 0 <= i < j < done.len() implies #[trigger] m[done[i]]
                    < #[trigger] m[done[j]] by {
                    assert(done[i] == old_done[i]);
                    if j < old_done.len() {
                        assert(done[j] == old_done[j]);
                    }
                }
                assert forall|i: int, j: int| 0 <= i < done.len() && 0 <= j < work@.len() implies #[trigger] m[done[i]]
                    < #[trigger] work@[j].1 by {
                    if i < old_done.len() {
                        assert(done[i] == old_done[i]);
                        let jj = if j < mi { j } else { j + 1 };
                        assert(work@[j] == before[jj]);
                    }
                }
            }
        }
        clone
    }

    /// `self` with the pairs of `other` put in: a pair of `self` stays when neither its
    /// name nor its id occurs in `other`.
    pub fn merge(&self, other: &EncoderMap) -> (r: EncoderMap)
        requires
            self.wf(),
            other.wf(),
        ensures
            r.wf(),
            r@ == overlay(self@, other@),
    {
        let mut merged = self.duplicate();
        merged.put_all(other);
        merged
    }

    /// Puts in the pairs of `other`, one after the other.
    pub fn put_all(&mut self, other: &EncoderMap)
        requires
            old(self).wf(),
            other.wf(),
        ensures
            final(self).wf(),
            final(self)@ == overlay(old(self)@, other@),
    {
        let ghost start = self@;
        let entries = bimap_entries(&other.map);
        let mut i: usize = 0;
        assert(overlay(start, to_map(entries@.take(0))) =~= start) by {
            assert(to_map(entries@.take(0)) =~= Map::<Seq<char>, u32>::empty());
        }
        while i < entries.len()
            invariant
                self.wf(),
                i <= entries@.len(),
                lists(entries@, other@),
                injective(other@),
                self@ == overlay(start, to_map(entries@.take(i as int))),
            decreases entries@.len() - i,
        {
            let ghost p = to_map(entries@.take(i as int));
            let key = entries[i].0.clone();
            let value = entries[i].1;
            proof {
                lemma_to_map_prefix(entries@, other@, i as int);
                assert(entries@.take(i as int + 1).drop_last() =~= entries@.take(i as int));
                assert(!p.contains_key(key@));
                assert(!has_id(p, value)) by {
                    assert(pair_in(entries@[i as int], other@));
                    if has_id(p, value) {
                        let kk = choose|kk: Seq<char>| #[trigger] p.contains_key(kk) && p[kk] == value;
                        assert(other@.contains_key(kk) && p[kk] == other@[kk]);
                        assert(other@[kk] == other@[key@]);
                    }
                }
                lemma_overlay_step(start, p, key@, value);
            }
            self.insert(key, value);
            i = i + 1;
        }
        proof {
            assert(entries@.take(entries@.len() as int) =~= entries@);
            lemma_to_map_prefix(entries@, other@, entries@.len() as int);
            assert(to_map(entries@) =~= other@);
        }
    }

    /// Each name and its id, in the order in which the bimap hands them out, which a
    /// per-process hash seed decides.
    pub fn iter(&self) -> (r: Vec<(String, u32)>)
        ensures
            lists(r@, self@),
    {
        bimap_entries(&self.map)
    }

    /// The number of pairs.
    pub fn size(&self) -> (r: usize)
        ensures
            r == self@.len(),
    {
        bimap_len(&self.map)
    }
}

/// Numbers the field names of a document for the binary format.
#[derive(Debug)]
pub struct FieldMap {
    map: EncoderMap,
}

impl View for FieldMap {
    type V = Map<Seq<char>, u32>;

    closed spec fn view(&self) -> Map<Seq<char>, u32> {
        self.map@
    }
}

impl Clone for FieldMap {
    fn clone(&self) -> (r: Self)
        ensures
            r@ == self@,
            r.wf() == self.wf(),
    {
        FieldMap { map: self.map.duplicate() }
    }
}

impl Default for FieldMap {
    fn default() -> (r: Self)
        ensures
            r.wf(),
            r@ == Map::<Seq<char>, u32>::empty(),
    {
        FieldMap::new()
    }
}

impl PartialEq for FieldMap {
    fn eq(&self, other: &Self) -> (r: bool) {
        self.map == other.map
    }
}

impl vstd::std_specs::cmp::PartialEqSpecImpl for FieldMap {
    open spec fn obeys_eq_spec() -> bool {
        true
    }

    open spec fn eq_spec(&self, other: &Self) -> bool {
        self@ == other@
    }
}

impl Eq for FieldMap {

}

impl FieldMap {
    /// Every field name has one id and every id one name.
    pub closed spec fn wf(&self) -> bool {
        self.map.wf()
    }

    pub fn new() -> (r: FieldMap)
        ensures
            r.wf(),
            r@ == Map::<Seq<char>, u32>::empty(),
    {
        FieldMap { map: EncoderMap::new() }
    }

    /// Puts in the fields of `other` with their ids.
    pub fn extend(&mut self, other: &FieldMap)
        requires
            old(self).wf(),
            other.wf(),
        ensures
            final(self).wf(),
            final(self)@ == overlay(old(self)@, other@),
    {
        self.map.put_all(&other.map);
    }

    /// Pairs `field` with `field_id`, dropping the pair that held either before.
    pub fn insert(&mut self, field: String, field_id: u32)
        requires
            old(self).wf(),
        ensures
            final(self).wf(),
            final(self)@ == with_pair(old(self)@, field@, field_id),
    {
        self.map.insert(field, field_id);
    }

    /// The id of `field`; a new field is given the number of fields as its id.
    pub fn get_or_insert(&mut self, field: &String) -> (r: u32)
        requires
            old(self).wf(),
        ensures
            final(self).wf(),
            old(self)@.contains_key(field@) ==> r == old(self)@[field@] && final(self)@ == old(self)@,
            !old(self)@.contains_key(field@) ==> r == old(self)@.len() as u32 && final(self)@
                == with_pair(old(self)@, field@, r),
    {
        self.map.get_or_insert(field)
    }

    /// The id of `field`.
    pub fn get_field_id(&self, field: &String) -> (r: Option<&u32>)
        ensures
            r is Some <==> self@.contains_key(field@),
            r matches Some(v) ==> *v == self@[field@],
    {
        self.map.get_value(field)
    }

    /// The field with the id `field_id`.
    pub fn get_field(&self, field_id: &u32) -> (r: Option<&String>)
        requires
            self.wf(),
        ensures
            r is Some <==> has_id(self@, *field_id),
            r matches Some(s) ==> self@.contains_key(s@) && self@[s@] == *field_id,
    {
        self.map.get_key(field_id)
    }

    /// `other` with the fields of `self` numbered after its own, in the order of their
    /// ids in `self`.
    pub fn as_per(&self, other: &FieldMap) -> (r: FieldMap)
        requires
            self.wf(),
            other.wf(),
        ensures
            r.wf(),
            exists|s: Seq<Seq<char>>| by_id(s, self@) && r@ == absorb(other@, s),
    {
        let map = self.map.as_per(&other.map);
        let ghost s = choose|s: Seq<Seq<char>>| by_id(s, self.map@) && map@ == absorb(other.map@, s);
        assert(by_id(s, self@) && map@ == absorb(other@, s));
        FieldMap { map }
    }

    /// `self` with the fields of `other` put in.
    pub fn merge(&self, other: &FieldMap) -> (r: FieldMap)
        requires
            self.wf(),
            other.wf(),
        ensures
            r.wf(),
            r@ == overlay(self@, other@),
    {
        FieldMap { map: self.map.merge(&other.map) }
    }

    /// Each field and its id, in the order in which the bimap hands them out.
    pub fn iter(&self) -> (r: Vec<(String, u32)>)
        ensures
            lists(r@, self@),
    {
        self.map.iter()
    }

    /// The fields, as a numbering.
    pub fn encoder_map(&self) -> (r: &EncoderMap)
        ensures
            r@ == self@,
            r.wf() == self.wf(),
    {
        &self.map
    }

    /// Numbers fields as `map` does.
    pub fn from_encoder_map(map: EncoderMap) -> (r: FieldMap)
        ensures
            r@ == map@,
            r.wf() == map.wf(),
    {
        FieldMap { map }
    }
}

/// The names are numbered `0` to one less than their count, each number used once.
pub open spec fn dense(m: Map<Seq<char>, u32>) -> bool {
    &&& m.dom().finite()
    &&& injective(m)
    &&& forall|k: Seq<char>| #[trigger] m.contains_key(k) ==> m[k] < m.len()
}

/// Numbering law: when the names are numbered densely, `get_or_insert` of a new name gives it
/// the next number, keeps every other pair, and leaves the numbering dense; so names put in
/// one after the other into an empty map are numbered 0, 1, 2, ... in that order.
pub proof fn lemma_numbering(m: Map<Seq<char>, u32>, key: Seq<char>)
    requires
        dense(m),
        !m.contains_key(key),
        m.len() < u32::MAX,
    ensures
        with_pair(m, key, m.len() as u32) == m.insert(key, m.len() as u32),
        dense(m.insert(key, m.len() as u32)),
        m.insert(key, m.len() as u32).len() == m.len() + 1,
{
    let n = m.len() as u32;
    assert(without_id(m.remove(key), n) =~= m) by {
        assert(m.remove(key) =~= m);
    }
    let m2 = m.insert(key, n);
    assert(m2.len() == m.len() + 1);
    assert forall|a: Seq<char>, b: Seq<char>|
        #![trigger m2[a], m2[b]]
        m2.contains_key(a) && m2.contains_key(b) && m2[a] == m2[b] implies a == b by {
        if a != key && b != key {
            assert(m[a] == m[b]);
        } else if a == key && b != key {
            assert(m[b] < n);
        } else if b == key && a != key {
            assert(m[a] < n);
        }
    }
}

/// What `get_or_insert` of a name makes of a numbering: a name it has keeps its number, a
/// new name is paired with the count of names.
pub open spec fn put_in(m: Map<Seq<char>, u32>, k: Seq<char>) -> Map<Seq<char>, u32> {
    if m.contains_key(k) {
        m
    } else {
        with_pair(m, k, m.len() as u32)
    }
}

/// The numbering that `get_or_insert` of each name in turn makes of an empty map.
pub open spec fn put_all_in(keys: Seq<Seq<char>>) -> Map<Seq<char>, u32>
    decreases keys.len(),
{
    if keys.len() == 0 {
        Map::empty()
    } else {
        put_in(put_all_in(keys.drop_last()), keys.last())
    }
}

/// One `get_or_insert` on a dense numbering: a name it has changes nothing, a new name is
/// paired with the count of names, and the numbering stays dense.
pub proof fn lemma_put_in(m: Map<Seq<char>, u32>, k: Seq<char>)
    requires
        dense(m),
        m.len() < u32::MAX,
    ensures
        put_in(m, k) == if m.contains_key(k) {
            m
        } else {
            m.insert(k, m.len() as u32)
        },
        dense(put_in(m, k)),
        put_in(m, k).len() <= m.len() + 1,
{
    if !m.contains_key(k) {
        lemma_numbering(m, k);
    }
}

/// The names of a run: a numbering of a run holds exactly the names put in, densely, with no
/// more numbers than calls.
pub proof fn lemma_run_names(keys: Seq<Seq<char>>)
    requires
        keys.len() < u32::MAX,
    ensures
        dense(put_all_in(keys)),
        put_all_in(keys).len() <= keys.len(),
        forall|k: Seq<char>| put_all_in(keys).contains_key(k) <==> keys.contains(k),
    decreases keys.len(),
{
    if keys.len() == 0 {
        assert(dense(Map::<Seq<char>, u32>::empty()));
    } else {
        let p = keys.drop_last();
        let k = keys.last();
        lemma_run_names(p);
        lemma_put_in(put_all_in(p), k);
        assert forall|x: Seq<char>| put_all_in(keys).contains_key(x) <==> keys.contains(x) by {
            if keys.contains(x) {
                let j = choose|j: int| 0 <= j < keys.len() && keys[j] == x;
                if j < p.len() {
                    assert(p[j] == x);
                }
            }
            if p.contains(x) {
                let j = choose|j: int| 0 <= j < p.len() && p[j] == x;
                assert(keys[j] == x);
            }
        }
    }
}

/// Numbering law over runs: after `get_or_insert` of each name in turn on an empty map, the
/// numbers are exactly `0` to one less than the count of distinct names, each used once; the
/// map holds exactly the names put in; and each name has the number of distinct names put in
/// before its first call.
pub proof fn lemma_numbering_run(keys: Seq<Seq<char>>)
    requires
        keys.len() < u32::MAX,
    ensures
        dense(put_all_in(keys)),
        forall|k: Seq<char>| put_all_in(keys).contains_key(k) <==> keys.contains(k),
        forall|i: int|
            0 <= i < keys.len() && !keys.take(i).contains(#[trigger] keys[i]) ==> put_all_in(keys)[keys[i]]
                == put_all_in(keys.take(i)).len(),
    decreases keys.len(),
{
    lemma_run_names(keys);
    if keys.len() > 0 {
        let p = keys.drop_last();
        let k = keys.last();
        let m = put_all_in(p);
        lemma_numbering_run(p);
        lemma_run_names(p);
        lemma_put_in(m, k);
        assert forall|i: int|
            0 <= i < keys.len() && !keys.take(i).contains(#[trigger] keys[i]) implies put_all_in(
            keys,
        )[keys[i]] == put_all_in(keys.take(i)).len() by {
            if i < p.len() {
                assert(keys.take(i) =~= p.take(i));
                assert(keys[i] == p[i]);
                assert(p.contains(p[i]));
                assert(m.contains_key(keys[i]));
            } else {
                assert(keys.take(i) =~= p);
            }
        }
    }
}

} // verus!
