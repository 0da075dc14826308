use crate::change_btree::{lemma_zip_insert, lemma_zip_split, zip};
use crate::sorted::{lb, lemma_lb, lemma_sorted_insert, lemma_sorted_parts, lower_bound, sorted};
use vstd::multiset::Multiset;
use vstd::prelude::*;

verus! {

broadcast use vstd::seq::axiom_seq_subrange_decreases;

/// A leaf: sorted keys with their values, made with room for `capacity` keys. A leaf
/// splits when an insertion would fill it.
pub struct LeafNode<V> {
    pub keys: Vec<u64>,
    pub values: Vec<V>,
    pub capacity: usize,
}

/// An inner node over `children`; `total` is the count it keeps for its subtree.
pub struct InternalNode<V> {
    pub keys: Vec<u64>,
    pub children: Vec<Node<V>>,
    pub total: usize,
    pub capacity: usize,
}

/// A node that is either internal or a leaf.
pub enum Node<V> {
    Internal(InternalNode<V>),
    Leaf(LeafNode<V>),
}

/// The position of the first key at least `key`, or the number of keys when there is none.
pub open spec fn first_ge(keys: Seq<u64>, key: u64) -> int
    decreases keys.len(),
{
    if keys.len() == 0 {
        0
    } else {
        let j = first_ge(keys.drop_last(), key);
        if j < keys.len() - 1 {
            j
        } else if key <= keys.last() {
            keys.len() - 1
        } else {
            keys.len() as int
        }
    }
}

pub proof fn lemma_first_ge(keys: Seq<u64>, key: u64)
    ensures
        0 <= first_ge(keys, key) <= keys.len(),
        forall|i: int| 0 <= i < first_ge(keys, key) ==> keys[i] < key,
        first_ge(keys, key) < keys.len() ==> key <= keys[first_ge(keys, key)],
        sorted(keys) ==> first_ge(keys, key) == lb(keys, key),
    decreases keys.len(),
{
    if keys.len() > 0 {
        let t = keys.drop_last();
        lemma_first_ge(t, key);
        assert forall|i: int| 0 <= i < first_ge(keys, key) implies keys[i] < key by {
            if i < keys.len() - 1 {
                assert(keys[i] == t[i]);
            }
        }
    }
    if sorted(keys) {
        crate::sorted::lemma_lb_unique(keys, key, first_ge(keys, key));
    }
}

/// The first position of `key` among `keys`.
pub open spec fn first_pos(keys: Seq<u64>, key: u64) -> Option<int>
    decreases keys.len(),
{
    if keys.len() == 0 {
        None
    } else {
        match first_pos(keys.drop_last(), key) {
            Some(j) => Some(j),
            None => if keys.last() == key {
                Some(keys.len() - 1)
            } else {
                None
            },
        }
    }
}

/// The count a node keeps: a leaf's number of keys, an internal node's total.
pub open spec fn node_size<V>(n: Node<V>) -> nat {
    match n {
        Node::Leaf(l) => l.keys@.len(),
        Node::Internal(b) => b.total as nat,
    }
}

/// The sum of the counts the nodes keep.
pub open spec fn sizes<V>(s: Seq<Node<V>>) -> nat
    decreases s.len(),
{
    if s.len() == 0 {
        0
    } else {
        sizes(s.drop_last()) + node_size(s.last())
    }
}

pub open spec fn capacity_of<V>(n: Node<V>) -> usize {
    match n {
        Node::Leaf(l) => l.capacity,
        Node::Internal(b) => b.capacity,
    }
}

/// The keys held by the node itself.
pub open spec fn keys_of<V>(n: Node<V>) -> Seq<u64> {
    match n {
        Node::Leaf(l) => l.keys@,
        Node::Internal(b) => b.keys@,
    }
}

impl<V> LeafNode<V> {
    /// The key-value entries of the leaf, in order.
    pub open spec fn entries(&self) -> Seq<(u64, V)> {
        zip(self.keys@, self.values@)
    }

    /// Keys and values pair up, the keys are sorted, and the leaf is not full.
    pub open spec fn wf(&self) -> bool {
        &&& self.keys@.len() == self.values@.len()
        &&& self.keys@.len() + 1 <= self.capacity
        &&& self.capacity >= 2
        &&& sorted(self.keys@)
    }
}

impl<V> Node<V> {
    /// The entries under the node, leaf after leaf.
    pub open spec fn entries(&self) -> Seq<(u64, V)>
        decreases self,
    {
        match self {
            Node::Leaf(l) => l.entries(),
            Node::Internal(b) => entries_of(b.children@),
        }
    }

    /// The shape that insertion keeps: leaves well formed; internal nodes with room for
    /// their keys and well-formed children.
    pub open spec fn wf(&self) -> bool
        decreases self,
    {
        match self {
            Node::Leaf(l) => l.wf(),
            Node::Internal(b) => {
                &&& b.keys@.len() <= b.capacity
                &&& 2 <= b.capacity < usize::MAX
                &&& forall|i: int| 0 <= i < b.children@.len() ==> (#[trigger] b.children@[i]).wf()
            },
        }
    }
}

/// The entries under the nodes, one node after the other.
pub open spec fn entries_of<V>(s: Seq<Node<V>>) -> Seq<(u64, V)>
    decreases s,
{
    if s.len() == 0 {
        Seq::empty()
    } else {
        entries_of(s.drop_last()) + s.last().entries()
    }
}

/// A child of an internal node is smaller than the node.
pub proof fn lemma_child_decreases<V>(n: Node<V>, i: int)
    requires
        n is Internal,
        0 <= i < n->Internal_0.children@.len(),
    ensures
        decreases_to!(n => n->Internal_0.children@[i]),
{
    let b = n->Internal_0;
    assert(decreases_to!(n => b));
    assert(decreases_to!(b => b.children));
    assert(decreases_to!(b.children => b.children@));
    assert(decreases_to!(b.children@ => b.children@[i]));
}

/// Whether inserting `key` splits `n`: a leaf splits when the insertion would fill it; an
/// internal node splits when the child the key goes to splits while its keys are full.
pub open spec fn splits<V>(n: Node<V>, key: u64) -> bool
    decreases n,
{
    match n {
        Node::Leaf(l) => l.keys@.len() + 1 == l.capacity,
        Node::Internal(b) => {
            let i = first_ge(b.keys@, key);
            if 0 <= i < b.children@.len() {
                proof {
                    lemma_child_decreases(n, i);
                }
                b.keys@.len() == b.capacity && splits(b.children@[i], key)
            } else {
                false
            }
        },
    }
}

/// The count that a split of `b` moves into its right part, when the child the key goes
/// to ends up with the count `child_left`: the counts of the children after the middle.
pub open spec fn moved<V>(b: InternalNode<V>, key: u64, child_left: int) -> int {
    let i = first_ge(b.keys@, key);
    let m = (b.keys@.len() / 2) as int;
    let rest = sizes(b.children@.subrange(m + 1, b.children@.len() as int));
    if i >= m + 1 {
        rest - node_size(b.children@[i]) + child_left
    } else {
        rest as int
    }
}

/// The count `n` keeps after inserting `key`.
pub open spec fn left_after<V>(n: Node<V>, key: u64) -> int
    decreases n,
{
    match n {
        Node::Leaf(l) => if l.keys@.len() + 1 == l.capacity {
            (l.capacity / 2) as int
        } else {
            l.keys@.len() + 1 as int
        },
        Node::Internal(b) => {
            let i = first_ge(b.keys@, key);
            if 0 <= i < b.children@.len() && b.keys@.len() == b.capacity && splits(
                b.children@[i],
                key,
            ) {
                proof {
                    lemma_child_decreases(n, i);
                }
                b.total + 1 - moved(b, key, left_after(b.children@[i], key))
            } else {
                b.total + 1
            }
        },
    }
}

/// The count the right part keeps when inserting `key` splits `n`.
pub open spec fn right_after<V>(n: Node<V>, key: u64) -> int {
    match n {
        Node::Leaf(l) => l.keys@.len() + 1 - l.capacity / 2,
        Node::Internal(b) => {
            let i = first_ge(b.keys@, key);
            moved(b, key, left_after(b.children@[i], key))
        },
    }
}

/// Whether inserting `key` into `n` runs without a fault: the key's child exists at every
/// level, no count overflows, a splitting node has children after its middle and keeps a
/// count no smaller than what moves out, and a node that takes a new child without
/// splitting has a key after the key's position.
pub open spec fn insert_ok<V>(n: Node<V>, key: u64) -> bool
    decreases n,
{
    match n {
        Node::Leaf(_) => true,
        Node::Internal(b) => {
            let i = first_ge(b.keys@, key);
            let m = b.keys@.len() / 2;
            if 0 <= i < b.children@.len() {
                proof {
                    lemma_child_decreases(n, i);
                }
                &&& b.total < usize::MAX
                &&& insert_ok(b.children@[i], key)
                &&& splits(b.children@[i], key) ==> if b.keys@.len() == b.capacity {
                    &&& m + 1 <= b.children@.len()
                    &&& moved(b, key, left_after(b.children@[i], key)) <= b.total + 1
                } else {
                    i + 1 <= b.keys@.len()
                }
            } else {
                false
            }
        },
    }
}

pub proof fn lemma_sizes_append<V>(a: Seq<Node<V>>, b: Seq<Node<V>>)
    ensures
        sizes(a + b) == sizes(a) + sizes(b),
    decreases b.len(),
{
    if b.len() == 0 {
        assert(a + b =~= a);
    } else {
        lemma_sizes_append(a, b.drop_last());
        assert((a + b).drop_last() =~= a + b.drop_last());
    }
}

pub proof fn lemma_sizes_one<V>(n: Node<V>)
    ensures
        sizes(seq![n]) == node_size(n),
{
    assert(seq![n].drop_last() =~= Seq::<Node<V>>::empty());
    assert(sizes(Seq::<Node<V>>::empty()) == 0);
}

pub proof fn lemma_entries_of_append<V>(a: Seq<Node<V>>, b: Seq<Node<V>>)
    ensures
        entries_of(a + b) == entries_of(a) + entries_of(b),
    decreases b.len(),
{
    if b.len() == 0 {
        assert(a + b =~= a);
        assert(entries_of(a) + entries_of(b) =~= entries_of(a));
    } else {
        lemma_entries_of_append(a, b.drop_last());
        assert((a + b).drop_last() =~= a + b.drop_last());
        assert((a + b).last() == b.last());
        assert(entries_of(a + b) =~= entries_of(a) + entries_of(b));
    }
}

pub proof fn lemma_entries_of_one<V>(n: Node<V>)
    ensures
        entries_of(seq![n]) == n.entries(),
{
    assert(seq![n].drop_last() =~= Seq::<Node<V>>::empty());
    assert(entries_of(Seq::<Node<V>>::empty()) == Seq::<(u64, V)>::empty());
    assert(entries_of(seq![n]) =~= n.entries());
}

impl<V> LeafNode<V> {
    /// An empty leaf made with room for `capacity` keys.
    pub fn with_capacity(capacity: usize) -> (r: Self)
        ensures
            r.keys@.len() == 0,
            r.values@.len() == 0,
            r.capacity == capacity,
    {
        LeafNode { keys: Vec::with_capacity(capacity), values: Vec::with_capacity(capacity), capacity }
    }

    /// Inserts the entry in front of the entries with an equal key. When the insertion
    /// would fill the leaf, the leaf first splits at half its capacity and the entry goes
    /// into the right part, whatever its key; the right part is returned with the last key
    /// left behind.
    pub fn insert(&mut self, key: u64, value: V) -> (r: Option<(u64, Node<V>)>)
        requires
            old(self).wf(),
        ensures
            final(self).wf(),
            final(self).capacity == old(self).capacity,
            r is Some <==> old(self).keys@.len() + 1 == old(self).capacity,
            r is None ==> final(self).entries() == old(self).entries().insert(
                lb(old(self).keys@, key),
                (key, value),
            ),
            r matches Some((k, n)) ==> leaf_split_into(*old(self), *final(self), k, n, key, value),
        decreases (if old(self).keys@.len() + 1 == old(self).capacity {
            1int
        } else {
            0int
        }),
    {
        let index = lower_bound(&self.keys, key);
        if self.keys.len() + 1 == self.capacity {
            let ghost all = old(self).entries();
            let mut right = self.split();
            proof {
                let m = ((old(self).capacity / 2) as int) as int;
                lemma_zip_split(old(self).keys@, old(self).values@, m);
                lemma_sorted_parts(old(self).keys@, m);
            }
            let ghost pre = right.entries();
            let ghost pre_keys = right.keys@;
            let _ = right.insert(key, value);
            assert(pre_keys == old(self).keys@.subrange((old(self).capacity / 2) as int, old(self).keys@.len() as int));
            assert(right.entries() == pre.insert(lb(pre_keys, key), (key, value)));
            let k = self.keys[self.keys.len() - 1];
            proof {
                let m = (old(self).capacity / 2) as int;
                assert(pre == old(self).entries().subrange(m, old(self).entries().len() as int));
                assert(self.entries() == old(self).entries().subrange(0, m));
                assert(right.entries() == old(self).entries().subrange(m, old(self).entries().len() as int).insert(
                    lb(pre_keys, key),
                    (key, value),
                ));
            }
            return Some((k, Node::Leaf(right)));
        }
        proof {
            lemma_sorted_insert(self.keys@, key);
        }
        self.keys.insert(index, key);
        self.values.insert(index, value);
        proof {
            lemma_zip_insert(old(self).keys@, old(self).values@, index as int, key, value);
        }
        None
    }

    /// Moves the keys and values from half the capacity on into a new leaf of the same
    /// capacity, which is returned.
    pub fn split(&mut self) -> (r: LeafNode<V>)
        requires
            old(self).keys@.len() == old(self).values@.len(),
            old(self).capacity / 2 <= old(self).keys@.len(),
        ensures
            final(self).capacity == old(self).capacity,
            r.capacity == old(self).capacity,
            final(self).keys@ == old(self).keys@.subrange(0, (old(self).capacity / 2) as int),
            final(self).values@ == old(self).values@.subrange(0, (old(self).capacity / 2) as int),
            r.keys@ == old(self).keys@.subrange((old(self).capacity / 2) as int, old(self).keys@.len() as int),
            r.values@ == old(self).values@.subrange(
                (old(self).capacity / 2) as int,
                old(self).values@.len() as int,
            ),
    {
        let mid = self.capacity / 2;
        let mut left = LeafNode::with_capacity(self.capacity);
        left.keys = self.keys.split_off(mid);
        left.values = self.values.split_off(mid);
        left
    }
}

/// `right` is a leaf that, with `left`, splits the entries of `old` at half its capacity
/// with the entry inserted into the right part, and `k` is the last key left behind.
pub open spec fn leaf_split_into<V>(
    old: LeafNode<V>,
    left: LeafNode<V>,
    k: u64,
    right: Node<V>,
    key: u64,
    value: V,
) -> bool {
    let m = (old.capacity / 2) as int;
    let tail_keys = old.keys@.subrange(m, old.keys@.len() as int);
    match right {
        Node::Leaf(r) => {
            &&& r.wf()
            &&& r.capacity == old.capacity
            &&& left.entries() == old.entries().subrange(0, m)
            &&& r.entries() == old.entries().subrange(m, old.entries().len() as int).insert(
                lb(tail_keys, key),
                (key, value),
            )
            &&& left.keys@.len() >= 1
            &&& k == left.keys@.last()
        },
        Node::Internal(_) => false,
    }
}

/// What inserting `(key, value)` into `old` gave: `new`, and `r` when it split. The
/// entries gained the one entry and lost none, the counts kept are those the split rule
/// gives, and shapes and capacities are kept.
pub open spec fn inserted<V>(old: Node<V>, new: Node<V>, r: Option<(u64, Node<V>)>, key: u64, value: V) -> bool {
    &&& new.wf()
    &&& capacity_of(new) == capacity_of(old)
    &&& (new is Leaf <==> old is Leaf)
    &&& (r is Some <==> splits(old, key))
    &&& node_size(new) == left_after(old, key)
    &&& match r {
        None => new.entries().to_multiset() == old.entries().to_multiset().insert((key, value)),
        Some((k, right)) => {
            &&& right.wf()
            &&& capacity_of(right) == capacity_of(old)
            &&& (right is Leaf <==> old is Leaf)
            &&& node_size(right) == right_after(old, key)
            &&& keys_of(new).len() >= 1
            &&& k == keys_of(new).last()
            &&& new.entries().to_multiset().add(right.entries().to_multiset())
                == old.entries().to_multiset().insert((key, value))
        },
    }
}

/// The position of the first key at least `key`, or the number of keys.
pub fn first_ge_pos(keys: &Vec<u64>, key: u64) -> (r: usize)
    ensures
        r == first_ge(keys@, key),
{
    let mut i: usize = 0;
    while i < keys.len()
        invariant
            i <= keys@.len(),
            first_ge(keys@.take(i as int), key) == i,
            forall|j: int| 0 <= j < i ==> keys@[j] < key,
        decreases keys@.len() - i,
    {
        if key <= keys[i] {
            proof {
                lemma_first_ge_prefix(keys@, key, i as int);
            }
            return i;
        }
        assert(keys@.take(i as int + 1).drop_last() =~= keys@.take(i as int));
        i = i + 1;
    }
    assert(keys@.take(keys@.len() as int) =~= keys@);
    i
}

/// When the keys before `i` are below `key` and `keys[i]` is not, `i` is the first key
/// at least `key`.
proof fn lemma_first_ge_prefix(keys: Seq<u64>, key: u64, i: int)
    requires
        0 <= i < keys.len(),
        first_ge(keys.take(i), key) == i,
        key <= keys[i],
    ensures
        first_ge(keys, key) == i,
    decreases keys.len(),
{
    lemma_first_ge(keys, key);
    lemma_first_ge(keys.take(i), key);
    let f = first_ge(keys, key);
    if f < i {
        assert(keys.take(i)[f] == keys[f]);
    } else if f > i {
        assert(keys[i] < key);
    }
}

impl<V> InternalNode<V> {
    /// An internal node with no keys or children, made with room for `degree` keys.
    pub fn new(degree: usize) -> (r: Self)
        requires
            degree < usize::MAX,
        ensures
            r.keys@.len() == 0,
            r.children@.len() == 0,
            r.total == 0,
            r.capacity == degree,
    {
        InternalNode {
            keys: Vec::with_capacity(degree),
            children: Vec::with_capacity(degree + 1),
            total: 0,
            capacity: degree,
        }
    }

    /// The count the node keeps.
    pub fn size(&self) -> (r: usize)
        ensures
            r == self.total,
    {
        self.total
    }

    /// Moves the keys from the middle on, and the children after the middle, into a new
    /// node, whose count is the sum of its children's counts and is taken off this one.
    pub fn split(&mut self) -> (r: InternalNode<V>)
        requires
            old(self).keys@.len() == old(self).capacity,
            old(self).capacity < usize::MAX,
            old(self).keys@.len() / 2 + 1 <= old(self).children@.len(),
            sizes(old(self).children@.subrange((old(self).keys@.len() / 2 + 1) as int, old(self).children@.len() as int))
                <= old(self).total,
        ensures
            ({
                let m = (old(self).keys@.len() / 2) as int;
                &&& final(self).keys@ == old(self).keys@.subrange(0, m)
                &&& final(self).children@ == old(self).children@.subrange(0, m + 1)
                &&& r.keys@ == old(self).keys@.subrange(m, old(self).keys@.len() as int)
                &&& r.children@ == old(self).children@.subrange(m + 1, old(self).children@.len() as int)
                &&& r.total == sizes(r.children@)
                &&& final(self).total == old(self).total - r.total
                &&& r.capacity == old(self).capacity
                &&& final(self).capacity == old(self).capacity
            }),
    {
        let mid = self.keys.len() / 2;
        let mut right = InternalNode {
            keys: Vec::with_capacity(self.capacity),
            children: Vec::with_capacity(self.capacity + 1),
            total: 0,
            capacity: self.capacity,
        };
        right.keys = self.keys.split_off(mid);
        right.children = self.children.split_off(mid + 1);
        let ghost rc = right.children@;
        let mut sum: usize = 0;
        let mut i: usize = 0;
        while i < right.children.len()
            invariant
                i <= rc.len(),
                right.children@ == rc,
                sizes(rc) <= old(self).total,
                sum == sizes(rc.take(i as int)),
            decreases rc.len() - i,
        {
            proof {
                lemma_sizes_append(rc.take(i as int + 1), rc.skip(i as int + 1));
                assert(rc.take(i as int + 1) + rc.skip(i as int + 1) =~= rc);
                assert(rc.take(i as int + 1).drop_last() =~= rc.take(i as int));
            }
            sum = sum + right.children[i].size();
            i = i + 1;
        }
        assert(rc.take(rc.len() as int) =~= rc);
        right.total = sum;
        self.total = self.total - sum;
        right
    }
}

impl<V> Node<V> {
    /// The count the node keeps.
    pub fn size(&self) -> (r: usize)
        ensures
            r == node_size(*self),
    {
        match self {
            Node::Internal(node) => node.size(),
            Node::Leaf(node) => node.keys.len(),
        }
    }
}

/// The entries under the nodes, as a multiset.
pub open spec fn ms_of<V>(s: Seq<Node<V>>) -> Multiset<(u64, V)> {
    entries_of(s).to_multiset()
}

pub proof fn lemma_ms_append<V>(a: Seq<Node<V>>, b: Seq<Node<V>>)
    ensures
        ms_of(a + b) == ms_of(a).add(ms_of(b)),
{
    lemma_entries_of_append(a, b);
    vstd::seq_lib::lemma_multiset_commutative(entries_of(a), entries_of(b));
}

pub proof fn lemma_ms_one<V>(n: Node<V>)
    ensures
        ms_of(seq![n]) == n.entries().to_multiset(),
{
    lemma_entries_of_one(n);
}

/// Splitting a sequence of nodes around position `i`.
pub proof fn lemma_ms_around<V>(s: Seq<Node<V>>, i: int)
    requires
        0 <= i < s.len(),
    ensures
        ms_of(s) == ms_of(s.take(i)).add(s[i].entries().to_multiset()).add(ms_of(s.skip(i + 1))),
        sizes(s) == sizes(s.take(i)) + node_size(s[i]) + sizes(s.skip(i + 1)),
{
    assert(s =~= s.take(i) + seq![s[i]] + s.skip(i + 1));
    lemma_ms_append(s.take(i) + seq![s[i]], s.skip(i + 1));
    lemma_ms_append(s.take(i), seq![s[i]]);
    lemma_ms_one(s[i]);
    lemma_sizes_append(s.take(i) + seq![s[i]], s.skip(i + 1));
    lemma_sizes_append(s.take(i), seq![s[i]]);
    lemma_sizes_one(s[i]);
}

/// Inserting a node into a sequence adds its entries and its count.
pub proof fn lemma_ms_insert<V>(s: Seq<Node<V>>, j: int, n: Node<V>)
    requires
        0 <= j <= s.len(),
    ensures
        ms_of(s.insert(j, n)) == ms_of(s).add(n.entries().to_multiset()),
        sizes(s.insert(j, n)) == sizes(s) + node_size(n),
{
    let t = s.insert(j, n);
    assert(t =~= s.take(j) + seq![n] + s.skip(j));
    assert(s =~= s.take(j) + s.skip(j));
    lemma_ms_append(s.take(j) + seq![n], s.skip(j));
    lemma_ms_append(s.take(j), seq![n]);
    lemma_ms_append(s.take(j), s.skip(j));
    lemma_ms_one(n);
    lemma_sizes_append(s.take(j) + seq![n], s.skip(j));
    lemma_sizes_append(s.take(j), seq![n]);
    lemma_sizes_append(s.take(j), s.skip(j));
    lemma_sizes_one(n);
}

/// Replacing the node at `i` swaps its entries and count for the new node's.
pub proof fn lemma_ms_update<V>(s: Seq<Node<V>>, i: int, n: Node<V>)
    requires
        0 <= i < s.len(),
    ensures
        ms_of(s.update(i, n)).add(s[i].entries().to_multiset()) == ms_of(s).add(n.entries().to_multiset()),
        sizes(s.update(i, n)) + node_size(s[i]) == sizes(s) + node_size(n),
{
    let t = s.update(i, n);
    lemma_ms_around(s, i);
    lemma_ms_around(t, i);
    assert(t.take(i) =~= s.take(i));
    assert(t.skip(i + 1) =~= s.skip(i + 1));
}

/// A split of a sequence keeps all entries and counts.
pub proof fn lemma_ms_split<V>(s: Seq<Node<V>>, m: int)
    requires
        0 <= m <= s.len(),
    ensures
        ms_of(s) == ms_of(s.subrange(0, m)).add(ms_of(s.subrange(m, s.len() as int))),
        sizes(s) == sizes(s.subrange(0, m)) + sizes(s.subrange(m, s.len() as int)),
{
    assert(s =~= s.subrange(0, m) + s.subrange(m, s.len() as int));
    lemma_ms_append(s.subrange(0, m), s.subrange(m, s.len() as int));
    lemma_sizes_append(s.subrange(0, m), s.subrange(m, s.len() as int));
}

/// When `p + c == o + c2` and `c2 + r == c + {kv}`, then `p + r == o + {kv}`.
proof fn lemma_ms_cancel<A>(
    p: Multiset<A>,
    c: Multiset<A>,
    o: Multiset<A>,
    c2: Multiset<A>,
    r: Multiset<A>,
    kv: A,
)
    requires
        p.add(c) == o.add(c2),
        c2.add(r) == c.insert(kv),
    ensures
        p.add(r) == o.insert(kv),
{
    broadcast use vstd::multiset::group_multiset_axioms;

    assert forall|x: A| p.add(r).count(x) == o.insert(kv).count(x) by {
        assert(p.add(c).count(x) == o.add(c2).count(x));
        assert(c2.add(r).count(x) == c.insert(kv).count(x));
        assert(p.add(c).count(x) == p.count(x) + c.count(x));
        assert(o.add(c2).count(x) == o.count(x) + c2.count(x));
        assert(c2.add(r).count(x) == c2.count(x) + r.count(x));
        assert(p.add(r).count(x) == p.count(x) + r.count(x));
        if x == kv {
            assert(c.insert(kv).count(x) == c.count(x) + 1);
            assert(o.insert(kv).count(x) == o.count(x) + 1);
        } else {
            assert(c.insert(kv).count(x) == c.count(x));
            assert(o.insert(kv).count(x) == o.count(x));
        }
    }
    assert(p.add(r) =~= o.insert(kv));
}

/// Putting `r` into one of the two parts of a split gives the whole with `r`.
proof fn lemma_ms_regroup<A>(
    a: Multiset<A>,
    b: Multiset<A>,
    l: Multiset<A>,
    h: Multiset<A>,
    r: Multiset<A>,
    into_left: bool,
)
    requires
        into_left ==> a == l.add(r) && b == h,
        !into_left ==> a == l && b == h.add(r),
    ensures
        a.add(b) == l.add(h).add(r),
{
    broadcast use vstd::multiset::group_multiset_axioms;

    assert(a.add(b) =~= l.add(h).add(r));
}

impl<V> InternalNode<V> {
    /// After the child at `index` split off `child_right` with the key `k`: splits this
    /// full node and puts the key and the child's right part at `index` in the half it
    /// falls in; returns the last key left behind and the right half.
    fn split_and_place(&mut self, index: usize, k: u64, child_right: Node<V>) -> (r: (u64, Node<V>))
        requires
            old(self).keys@.len() == old(self).capacity,
            2 <= old(self).capacity < usize::MAX,
            old(self).keys@.len() / 2 + 1 <= old(self).children@.len(),
            sizes(old(self).children@.subrange((old(self).keys@.len() / 2 + 1) as int, old(self).children@.len() as int))
                <= old(self).total,
            index <= old(self).keys@.len(),
            index < old(self).children@.len(),
            forall|j: int| 0 <= j < old(self).children@.len() ==> (#[trigger] old(self).children@[j]).wf(),
            child_right.wf(),
        ensures
            Node::Internal(*final(self)).wf(),
            r.1.wf(),
            final(self).capacity == old(self).capacity,
            r.1 matches Node::Internal(b) && b.capacity == old(self).capacity,
            final(self).keys@.len() >= 1,
            r.0 == final(self).keys@.last(),
            final(self).total == old(self).total - sizes(old(self).children@.subrange((old(self).keys@.len() / 2 + 1) as int, old(self).children@.len() as int)),
            node_size(r.1) == sizes(old(self).children@.subrange((old(self).keys@.len() / 2 + 1) as int, old(self).children@.len() as int)),
            ms_of(final(self).children@).add(r.1.entries().to_multiset()) == ms_of(old(self).children@).add(child_right.entries().to_multiset()),
    {
        let ghost cs = old(self).children@;
        let ghost m = (old(self).keys@.len() / 2) as int;
        proof {
            lemma_ms_split(cs, m + 1);
        }
        let mut self_right = self.split();
        let ghost lc = self.children@;
        let ghost rc0 = self_right.children@;
        if index < self.keys.len() {
            self.keys.insert(index, k);
            self.children.insert(index, child_right);
            proof {
                lemma_ms_insert(lc, index as int, child_right);
                lemma_ms_regroup(ms_of(self.children@), ms_of(rc0), ms_of(lc), ms_of(rc0),
                    child_right.entries().to_multiset(), true);
                assert forall|j: int| 0 <= j < self.children@.len() implies (#[trigger] self.children@[j]).wf() by {
                    if j < index {
                        assert(self.children@[j] == cs[j]);
                    } else if j > index {
                        assert(self.children@[j] == cs[j - 1]);
                    }
                }
                assert forall|j: int| 0 <= j < rc0.len() implies (#[trigger] rc0[j]).wf() by {
                    assert(rc0[j] == cs[j + m + 1]);
                }
            }
        } else {
            let j = index - self.keys.len();
            self_right.keys.insert(j, k);
            self_right.children.insert(j, child_right);
            proof {
                lemma_ms_insert(rc0, j as int, child_right);
                lemma_ms_regroup(ms_of(lc), ms_of(self_right.children@), ms_of(lc), ms_of(rc0),
                    child_right.entries().to_multiset(), false);
                let rc = self_right.children@;
                assert forall|i: int| 0 <= i < rc.len() implies (#[trigger] rc[i]).wf() by {
                    if i < j {
                        assert(rc[i] == cs[i + m + 1]);
                    } else if i > j {
                        assert(rc[i] == cs[i - 1 + m + 1]);
                    }
                }
                assert forall|i: int| 0 <= i < lc.len() implies (#[trigger] lc[i]).wf() by {
                    assert(lc[i] == cs[i]);
                }
            }
        }
        let last = self.keys[self.keys.len() - 1];
        (last, Node::Internal(self_right))
    }

    /// Inserts into the child the key goes to. When that child splits, its right part
    /// comes after it, with the returned key, unless this node's keys are full: then this
    /// node splits too, the child's right part goes in at the key's position in the half
    /// it falls in, and the right half is returned with the last key left behind.
    #[verifier::spinoff_prover]
    #[verifier::rlimit(40)]
    pub fn insert(&mut self, key: u64, value: V) -> (r: Option<(u64, Node<V>)>)
        requires
            Node::Internal(*old(self)).wf(),
            insert_ok(Node::Internal(*old(self)), key),
        ensures
            inserted(Node::Internal(*old(self)), Node::Internal(*final(self)), r, key, value),
        decreases *old(self),
    {
        let ghost on = Node::Internal(*old(self));
        let ghost oc = old(self).children@;
        let ghost kv = (key, value);
        self.total = self.total + 1;
        let index = first_ge_pos(&self.keys, key);
        proof {
            lemma_first_ge(old(self).keys@, key);
        }
        let mut child = self.children.remove(index);
        assert(child == oc[index as int]);
        assert(decreases_to!(*old(self) => child)) by {
            lemma_child_decreases(on, index as int);
        }
        let ghost c0 = child;
        let res = child.insert(key, value);
        self.children.insert(index, child);
        let ghost cs = self.children@;
        let ghost mo = ms_of(oc);
        let ghost mc = c0.entries().to_multiset();
        let ghost mc2 = child.entries().to_multiset();
        proof {
            assert(cs =~= oc.update(index as int, child));
            lemma_ms_update(oc, index as int, child);
            assert forall|j: int| 0 <= j < cs.len() implies (#[trigger] cs[j]).wf() by {
                if j != index {
                    assert(cs[j] == oc[j]);
                }
            }
        }
        match res {
            None => {
                proof {
                    assert(mc2.add(Multiset::empty()) =~= mc2) by {
                        broadcast use vstd::multiset::group_multiset_axioms;

                    }
                    assert(ms_of(cs).add(Multiset::empty()) =~= ms_of(cs)) by {
                        broadcast use vstd::multiset::group_multiset_axioms;

                    }
                    lemma_ms_cancel(ms_of(cs), mc, mo, mc2, Multiset::empty(), kv);
                }
                None
            },
            Some((k, child_right)) => {
                let ghost mr = child_right.entries().to_multiset();
                if self.keys.len() == self.capacity {
                    proof {
                        let m = (self.keys@.len() / 2) as int;
                        if index >= m + 1 {
                            let tail = oc.subrange(m + 1, oc.len() as int);
                            assert(cs.subrange(m + 1, cs.len() as int) =~= tail.update(
                                index - (m + 1),
                                child,
                            ));
                            lemma_ms_update(tail, index - (m + 1), child);
                        } else {
                            assert(cs.subrange(m + 1, cs.len() as int) =~= oc.subrange(
                                m + 1,
                                oc.len() as int,
                            ));
                        }
                    }
                    let (last, right) = self.split_and_place(index, k, child_right);
                    proof {
                        lemma_ms_cancel(ms_of(cs), mc, mo, mc2, mr, kv);
                    }
                    Some((last, right))
                } else {
                    let ghost sc = self.children@;
                    self.keys.insert(index + 1, k);
                    self.children.insert(index + 1, child_right);
                    proof {
                        lemma_ms_insert(sc, index + 1, child_right);
                        lemma_ms_cancel(ms_of(cs), mc, mo, mc2, mr, kv);
                        assert forall|j: int| 0 <= j < self.children@.len() implies (#[trigger] self.children@[j]).wf() by {
                            if j <= index {
                                assert(self.children@[j] == cs[j]);
                            } else if j > index + 1 {
                                assert(self.children@[j] == cs[j - 1]);
                            }
                        }
                    }
                    None
                }
            },
        }
    }
}

impl<V> Node<V> {
    /// Inserts into a leaf, or into an internal node; returns the right part of a split.
    pub fn insert(&mut self, key: u64, value: V) -> (r: Option<(u64, Node<V>)>)
        requires
            old(self).wf(),
            insert_ok(*old(self), key),
        ensures
            inserted(*old(self), *final(self), r, key, value),
        decreases *old(self),
    {
        match self {
            Node::Internal(node) => node.insert(key, value),
            Node::Leaf(node) => {
                let ghost ol = *node;
                proof {
                    lemma_lb(ol.keys@, key);
                }
                let r = node.insert(key, value);
                proof {
                    let all = ol.entries().insert(lb(ol.keys@, key), (key, value));
                    vstd::seq_lib::to_multiset_insert(ol.entries(), lb(ol.keys@, key), (key, value));
                    assert(node.keys@.len() == node.entries().len());
                    if r is None {
                        assert(node.entries().len() == ol.entries().len() + 1);
                    }
                    if r is Some {
                        let m = (ol.capacity / 2) as int;
                        let e = ol.entries();
                        let tail = e.subrange(m, e.len() as int);
                        let tk = ol.keys@.subrange(m, ol.keys@.len() as int);
                        crate::sorted::lemma_lb_range(tk, key);
                        assert(e =~= e.subrange(0, m) + tail);
                        vstd::seq_lib::lemma_multiset_commutative(e.subrange(0, m), tail);
                        vstd::seq_lib::to_multiset_insert(tail, lb(tk, key), (key, value));
                        let right = r->Some_0.1->Leaf_0;
                        assert(right.keys@.len() == right.entries().len());
                        assert(right.entries().len() == tail.len() + 1);
                        assert(node.entries().len() == m);
                        assert(node.entries().to_multiset().add(right.entries().to_multiset()) =~= ol.entries().to_multiset().insert((key, value))) by {
                            broadcast use vstd::multiset::group_multiset_axioms;

                        }
                    }
                }
                r
            },
        }
    }
}

/// The child that position `index` falls in: the first whose count, added to those of the
/// children before it, passes `index`.
pub open spec fn pick<V>(s: Seq<Node<V>>, index: int) -> Option<int>
    decreases s.len(),
{
    if s.len() == 0 {
        None
    } else {
        match pick(s.drop_last(), index) {
            Some(j) => Some(j),
            None => if sizes(s) > index {
                Some(s.len() - 1)
            } else {
                None
            },
        }
    }
}

proof fn lemma_pick<V>(s: Seq<Node<V>>, index: int, i: int)
    requires
        0 <= i <= s.len(),
        forall|j: int| 0 <= j < i ==> sizes(#[trigger] s.take(j + 1)) <= index,
    ensures
        pick(s.take(i), index) is None,
        i < s.len() && sizes(s.take(i + 1)) > index ==> pick(s.take(i + 1), index) == Some(i),
    decreases i,
{
    if i > 0 {
        lemma_pick(s, index, i - 1);
        assert(s.take(i).drop_last() =~= s.take(i - 1));
        assert(sizes(s.take(i - 1 + 1)) <= index);
    }
    if i < s.len() {
        assert(s.take(i + 1).drop_last() =~= s.take(i));
    }
}

/// A found child passes the position with its count.
proof fn lemma_pick_some<V>(s: Seq<Node<V>>, index: int)
    ensures
        pick(s, index) matches Some(j) ==> 0 <= j < s.len() && sizes(s.take(j + 1)) > index,
    decreases s.len(),
{
    if s.len() > 0 {
        lemma_pick_some(s.drop_last(), index);
        if pick(s.drop_last(), index) is Some {
            let j = pick(s.drop_last(), index)->Some_0;
            assert(s.drop_last().take(j + 1) =~= s.take(j + 1));
        } else {
            assert(s.take(s.len() as int) =~= s);
        }
    }
}

/// A position found in a prefix stays found in the whole.
proof fn lemma_pick_extend<V>(s: Seq<Node<V>>, index: int, i: int)
    requires
        0 <= i <= s.len(),
        pick(s.take(i), index) is Some,
    ensures
        pick(s, index) == pick(s.take(i), index),
    decreases s.len() - i,
{
    if i < s.len() {
        assert(s.take(i + 1).drop_last() =~= s.take(i));
        lemma_pick_extend(s, index, i + 1);
    } else {
        assert(s.take(i) =~= s);
    }
}

/// The value at position `index` among the entries of `n`, found by the counts kept.
pub open spec fn value_at<V>(n: Node<V>, index: int) -> Option<V>
    decreases n,
{
    match n {
        Node::Leaf(l) => if 0 <= index < l.values@.len() {
            Some(l.values@[index])
        } else {
            None
        },
        Node::Internal(b) => match pick(b.children@, index) {
            Some(j) => if 0 <= j < b.children@.len() {
                proof {
                    lemma_child_decreases(n, j);
                }
                value_at(b.children@[j], index - sizes(b.children@.take(j)))
            } else {
                None
            },
            None => None,
        },
    }
}

/// Whether looking up position `index` runs without overflowing the running count.
pub open spec fn at_ok<V>(n: Node<V>, index: int) -> bool
    decreases n,
{
    match n {
        Node::Leaf(_) => true,
        Node::Internal(b) => match pick(b.children@, index) {
            Some(j) => if 0 <= j < b.children@.len() {
                proof {
                    lemma_child_decreases(n, j);
                }
                sizes(b.children@.take(j + 1)) <= usize::MAX && at_ok(
                    b.children@[j],
                    index - sizes(b.children@.take(j)),
                )
            } else {
                false
            },
            None => sizes(b.children@) <= usize::MAX,
        },
    }
}

/// The position of `key` counted by the kept counts: in a leaf, its first position; in an
/// internal node, its position in the child of the first key at least `key` after the
/// counts of the children before it, or, past every key, its position in the last child
/// alone.
pub open spec fn position_of<V>(n: Node<V>, key: u64) -> Option<int>
    decreases n,
{
    match n {
        Node::Leaf(l) => first_pos(l.keys@, key),
        Node::Internal(b) => {
            let i = first_ge(b.keys@, key);
            if i < b.keys@.len() {
                if 0 <= i < b.children@.len() {
                    proof {
                        lemma_child_decreases(n, i);
                    }
                    match position_of(b.children@[i], key) {
                        Some(x) => Some(sizes(b.children@.take(i)) + x),
                        None => None,
                    }
                } else {
                    None
                }
            } else if b.children@.len() > 0 {
                proof {
                    lemma_child_decreases(n, b.children@.len() - 1);
                }
                position_of(b.children@[b.children@.len() - 1], key)
            } else {
                None
            }
        },
    }
}

/// Whether looking up `key` runs without a fault: the children it walks past exist, the
/// running count does not overflow, and an internal node past every key has a last child.
pub open spec fn index_ok<V>(n: Node<V>, key: u64) -> bool
    decreases n,
{
    match n {
        Node::Leaf(_) => true,
        Node::Internal(b) => {
            let i = first_ge(b.keys@, key);
            if i < b.keys@.len() {
                if 0 <= i < b.children@.len() {
                    proof {
                        lemma_child_decreases(n, i);
                    }
                    &&& sizes(b.children@.take(i)) <= usize::MAX
                    &&& index_ok(b.children@[i], key)
                    &&& position_of(b.children@[i], key) matches Some(x) ==> sizes(
                        b.children@.take(i),
                    ) + x <= usize::MAX
                } else {
                    false
                }
            } else if b.keys@.len() <= b.children@.len() && b.children@.len() > 0 {
                proof {
                    lemma_child_decreases(n, b.children@.len() - 1);
                }
                &&& sizes(b.children@.take(b.keys@.len() as int)) <= usize::MAX
                &&& index_ok(b.children@[b.children@.len() - 1], key)
            } else {
                false
            }
        },
    }
}

proof fn lemma_sizes_prefix<V>(s: Seq<Node<V>>, i: int, j: int)
    requires
        0 <= i <= j <= s.len(),
    ensures
        sizes(s.take(i)) <= sizes(s.take(j)),
    decreases j - i,
{
    if i < j {
        lemma_sizes_prefix(s, i, j - 1);
        assert(s.take(j).drop_last() =~= s.take(j - 1));
    }
}

impl<V> Node<V> {
    /// An empty leaf made with room for `degree` keys.
    pub fn leaf(degree: usize) -> (r: Self)
        ensures
            r matches Node::Leaf(l) && l.keys@.len() == 0 && l.values@.len() == 0 && l.capacity
                == degree,
    {
        Node::Leaf(LeafNode::with_capacity(degree))
    }

    /// An empty internal node made with room for `degree` keys.
    pub fn internal(degree: usize) -> (r: Self)
        requires
            degree < usize::MAX,
        ensures
            r matches Node::Internal(b) && b.keys@.len() == 0 && b.children@.len() == 0 && b.total
                == 0 && b.capacity == degree,
    {
        Node::Internal(InternalNode::new(degree))
    }

    /// The value at position `index`, walking down by the counts kept.
    pub fn at_index(&self, index: usize) -> (r: Option<&V>)
        requires
            at_ok(*self, index as int),
        ensures
            r == match value_at(*self, index as int) {
                Some(v) => Some(&v),
                None => None::<&V>,
            },
        decreases *self,
    {
        match self {
            Node::Internal(node) => {
                let ghost cs = node.children@;
                let mut total: usize = 0;
                let mut i: usize = 0;
                while i < node.children.len()
                    invariant
                        *self == Node::Internal(*node),
                        cs == node.children@,
                        at_ok(*self, index as int),
                        i <= cs.len(),
                        total == sizes(cs.take(i as int)),
                        forall|j: int| 0 <= j < i ==> sizes(#[trigger] cs.take(j + 1)) <= index,
                    decreases cs.len() - i,
                {
                    proof {
                        lemma_pick(cs, index as int, i as int);
                        assert(cs.take(i as int + 1).drop_last() =~= cs.take(i as int));
                    }
                    let size = node.children[i].size();
                    proof {
                        if pick(cs, index as int) is Some {
                            let pj = pick(cs, index as int)->Some_0;
                            if pj >= i {
                                lemma_sizes_prefix(cs, i as int + 1, pj + 1);
                            } else {
                                lemma_pick_some(cs, index as int);
                                assert(sizes(cs.take(pj + 1)) <= index);
                            }
                        } else {
                            lemma_sizes_prefix(cs, i as int + 1, cs.len() as int);
                            assert(cs.take(cs.len() as int) =~= cs);
                        }
                    }
                    if total + size > index {
                        proof {
                            lemma_pick_extend(cs, index as int, i as int + 1);
                        }
                        assert(decreases_to!(*self => cs[i as int])) by {
                            lemma_child_decreases(*self, i as int);
                        }
                        return node.children[i].at_index(index - total);
                    }
                    total = total + size;
                    i = i + 1;
                }
                proof {
                    lemma_pick(cs, index as int, cs.len() as int);
                    assert(cs.take(cs.len() as int) =~= cs);
                }
                None
            },
            Node::Leaf(node) => {
                if index < node.values.len() {
                    Some(&node.values[index])
                } else {
                    None
                }
            },
        }
    }
}

/// The first position of `key` among `keys`, scanning from the front.
fn position(keys: &Vec<u64>, key: u64) -> (r: Option<usize>)
    ensures
        r == match first_pos(keys@, key) {
            Some(j) => Some(j as usize),
            None => None::<usize>,
        },
        first_pos(keys@, key) matches Some(j) ==> 0 <= j < keys@.len() <= usize::MAX,
{
    proof {
        lemma_first_pos_range(keys@, key);
    }
    let _ = keys.len();
    let mut i: usize = 0;
    while i < keys.len()
        invariant
            i <= keys@.len(),
            first_pos(keys@.take(i as int), key) is None,
        decreases keys@.len() - i,
    {
        assert(keys@.take(i as int + 1).drop_last() =~= keys@.take(i as int));
        if keys[i] == key {
            proof {
                lemma_first_pos_extend(keys@, key, i as int + 1);
            }
            return Some(i);
        }
        i = i + 1;
    }
    assert(keys@.take(keys@.len() as int) =~= keys@);
    None
}

proof fn lemma_first_pos_range(keys: Seq<u64>, key: u64)
    ensures
        first_pos(keys, key) matches Some(j) ==> 0 <= j < keys.len(),
    decreases keys.len(),
{
    if keys.len() > 0 {
        lemma_first_pos_range(keys.drop_last(), key);
    }
}

/// A position found in a prefix stays found in the whole.
proof fn lemma_first_pos_extend(keys: Seq<u64>, key: u64, i: int)
    requires
        0 <= i <= keys.len(),
        first_pos(keys.take(i), key) is Some,
    ensures
        first_pos(keys, key) == first_pos(keys.take(i), key),
    decreases keys.len() - i,
{
    if i < keys.len() {
        assert(keys.take(i + 1).drop_last() =~= keys.take(i));
        lemma_first_pos_extend(keys, key, i + 1);
    } else {
        assert(keys.take(i) =~= keys);
    }
}

impl<V> Node<V> {
    /// The position of `key` counted by the kept counts (see `position_of`).
    pub fn index_of(&self, key: u64) -> (r: Option<usize>)
        requires
            index_ok(*self, key),
        ensures
            r == match position_of(*self, key) {
                Some(x) => Some(x as usize),
                None => None::<usize>,
            },
            position_of(*self, key) matches Some(x) ==> 0 <= x <= usize::MAX,
        decreases *self,
    {
        match self {
            Node::Internal(node) => {
                let ghost cs = node.children@;
                let ghost ks = node.keys@;
                let ghost f = first_ge(ks, key);
                proof {
                    lemma_first_ge(ks, key);
                }
                let mut total: usize = 0;
                let mut i: usize = 0;
                while i < node.keys.len()
                    invariant
                        *self == Node::Internal(*node),
                        cs == node.children@,
                        ks == node.keys@,
                        index_ok(*self, key),
                        f == first_ge(ks, key),
                        0 <= f <= ks.len(),
                        forall|j: int| 0 <= j < f ==> ks[j] < key,
                        f < ks.len() ==> key <= ks[f],
                        i <= f,
                        f < ks.len() ==> f < cs.len() && sizes(cs.take(f)) <= usize::MAX,
                        f == ks.len() ==> ks.len() <= cs.len() && sizes(cs.take(ks.len() as int))
                            <= usize::MAX,
                        total == sizes(cs.take(i as int)),
                    decreases ks.len() - i,
                {
                    if key <= node.keys[i] {
                        assert(i == f);
                        assert(decreases_to!(*self => cs[i as int])) by {
                            lemma_child_decreases(*self, i as int);
                        }
                        assert(index_ok(cs[i as int], key));
                        assert(position_of(cs[i as int], key) matches Some(x) ==> sizes(cs.take(i as int)) + x
                            <= usize::MAX);
                        let found = node.children[i].index_of(key);
                        assert(position_of(*self, key) == match position_of(cs[i as int], key) {
                            Some(x) => Some(sizes(cs.take(i as int)) + x),
                            None => None,
                        });
                        return match found {
                            Some(index) => Some(total + index),
                            None => None,
                        };
                    }
                    proof {
                        assert(cs.take(i as int + 1).drop_last() =~= cs.take(i as int));
                        if f < ks.len() {
                            lemma_sizes_prefix(cs, i as int + 1, f);
                        } else {
                            lemma_sizes_prefix(cs, i as int + 1, ks.len() as int);
                        }
                    }
                    total = total + node.children[i].size();
                    i = i + 1;
                }
                let n = node.children.len();
                assert(decreases_to!(*self => cs[n - 1])) by {
                    lemma_child_decreases(*self, n - 1);
                }
                assert(f == ks.len());
                assert(position_of(*self, key) == position_of(cs[n - 1], key));
                node.children[n - 1].index_of(key)
            },
            Node::Leaf(node) => position(&node.keys, key),
        }
    }
}

/// A B-tree of `u64` keys whose internal nodes keep the number of entries below them.
pub struct BTree<V> {
    pub root: Node<V>,
    pub degree: usize,
}

impl<V> BTree<V> {
    pub open spec fn wf(&self) -> bool {
        &&& self.root.wf()
        &&& 2 <= self.degree < usize::MAX
    }

    /// The entries of the tree, leaf after leaf.
    pub open spec fn entries(&self) -> Seq<(u64, V)> {
        self.root.entries()
    }

    /// An empty tree whose nodes are made with room for `degree` keys.
    pub fn new(degree: usize) -> (r: Self)
        requires
            2 <= degree < usize::MAX,
        ensures
            r.wf(),
            r.degree == degree,
            r.entries().len() == 0,
            node_size(r.root) == 0,
            r.root is Leaf,
            r.root->Leaf_0.keys@.len() == 0,
            r.root->Leaf_0.capacity == degree,
    {
        BTree { root: Node::leaf(degree), degree }
    }

    /// The value at position `index`.
    pub fn at_index(&self, index: usize) -> (r: Option<&V>)
        requires
            at_ok(self.root, index as int),
        ensures
            r == match value_at(self.root, index as int) {
                Some(v) => Some(&v),
                None => None::<&V>,
            },
    {
        self.root.at_index(index)
    }

    /// The position of `key`.
    pub fn index_of(&self, key: &u64) -> (r: Option<usize>)
        requires
            index_ok(self.root, *key),
        ensures
            r == match position_of(self.root, *key) {
                Some(x) => Some(x as usize),
                None => None::<usize>,
            },
    {
        self.root.index_of(*key)
    }

    /// Inserts the entry; when the root splits, a new internal root holds the returned
    /// key and the two parts, and keeps the sum of their counts.
    pub fn insert(&mut self, key: u64, value: V)
        requires
            old(self).wf(),
            insert_ok(old(self).root, key),
        ensures
            final(self).wf(),
            final(self).degree == old(self).degree,
            final(self).entries().to_multiset() == old(self).entries().to_multiset().insert((key, value)),
            node_size(final(self).root) == node_size(old(self).root) + 1,
            old(self).root is Leaf && !splits(old(self).root, key) ==> final(self).root is Leaf
                && final(self).root->Leaf_0.keys@.len() == old(self).root->Leaf_0.keys@.len() + 1
                && final(self).root->Leaf_0.capacity == old(self).root->Leaf_0.capacity,
    {
        let ghost old_root = old(self).root;
        let right = self.root.insert(key, value);
        if let Some((sep, right)) = right {
            let mut new_root = InternalNode::new(self.degree);
            let mut old = Node::internal(self.degree);
            std::mem::swap(&mut old, &mut self.root);
            new_root.keys.push(sep);
            new_root.children.push(old);
            new_root.children.push(right);
            proof {
                assert(new_root.children@ =~= seq![old, right]);
                lemma_ms_append(seq![old], seq![right]);
                assert(seq![old] + seq![right] =~= seq![old, right]);
                lemma_ms_one(old);
                lemma_ms_one(right);
                lemma_sizes_append(seq![old], seq![right]);
                lemma_sizes_one(old);
                lemma_sizes_one(right);
                lemma_split_sizes(old_root, key);
            }
            let a = new_root.children[0].size();
            let b = new_root.children[1].size();
            new_root.total = a + b;
            self.root = Node::Internal(new_root);
        }
    }

    /// The count kept by the root.
    pub fn size(&self) -> (r: usize)
        ensures
            r == node_size(self.root),
    {
        self.root.size()
    }
}

/// The two parts of a split keep one more than the node kept.
proof fn lemma_split_sizes<V>(n: Node<V>, key: u64)
    requires
        n.wf(),
        insert_ok(n, key),
        splits(n, key),
    ensures
        left_after(n, key) + right_after(n, key) == node_size(n) + 1,
        node_size(n) < usize::MAX,
{
}

} // verus!
