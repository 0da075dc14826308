use crate::sorted::{
    keys_of, lb, lemma_lb, lemma_lb_range, lemma_lb_unique, lemma_sorted_insert,
    lemma_sorted_insert_between, lemma_sorted_parts, lower_bound, sorted,
};
use vstd::prelude::*;

verus! {

broadcast use vstd::seq::axiom_seq_subrange_decreases;

/// A leaf: sorted keys with their values, made with room for `order` entries.
pub struct Leaf<V> {
    pub values: Vec<V>,
    pub keys: Vec<u64>,
    pub order: usize,
}

/// An inner node: `children.len() == keys.len() + 1`; the key `keys[i]` separates
/// child `i` from child `i + 1`. `total` is the entry count kept for the subtree.
pub struct Branch<V> {
    pub keys: Vec<u64>,
    pub children: Vec<Node<V>>,
    pub order: usize,
    pub total: usize,
}

pub enum Node<V> {
    Leaf(Leaf<V>),
    Branch(Branch<V>),
}

impl<V> Leaf<V> {
    /// The key-value entries of the leaf, in order.
    pub open spec fn entries(&self) -> Seq<(u64, V)> {
        zip(self.keys@, self.values@)
    }

    pub open spec fn wf(&self) -> bool {
        &&& self.keys@.len() == self.values@.len()
        &&& self.keys@.len() <= self.order
        &&& self.order >= 2
        &&& sorted(self.keys@)
    }

    pub fn new(order: usize) -> (r: Self)
        ensures
            r.keys@.len() == 0,
            r.values@.len() == 0,
            r.order == order,
    {
        Leaf { values: Vec::with_capacity(order), keys: Vec::with_capacity(order), order }
    }

    /// Inserts the entry in front of the entries with an equal key. A full leaf is split:
    /// its upper half moves into a new leaf, returned with that leaf's smallest key.
    pub fn insert(&mut self, key: u64, value: V) -> (r: Option<(u64, Node<V>)>)
        requires
            old(self).wf(),
        ensures
            r is None <==> old(self).keys@.len() < old(self).order,
            final(self).order == old(self).order,
            match r {
                None => {
                    &&& final(self).wf()
                    &&& final(self).entries() == old(self).entries().insert(
                        lb(old(self).keys@, key),
                        (key, value),
                    )
                },
                Some((k, n)) => leaf_split(
                    *final(self),
                    k,
                    n,
                    old(self).entries().insert(lb(old(self).keys@, key), (key, value)),
                ),
            },
            r is Some ==> final(self).keys@.len() == split_point(
                old(self).order as int,
                lb(old(self).keys@, key),
            ),
    {
        let pos = lower_bound(&self.keys, key);
        if self.keys.len() == self.order {
            Some(self.insert_and_split(pos, key, value))
        } else {
            proof {
                lemma_sorted_insert(self.keys@, key);
            }
            self.keys.insert(pos, key);
            self.values.insert(pos, value);
            proof {
                lemma_zip_insert(old(self).keys@, old(self).values@, pos as int, key, value);
            }
            None
        }
    }

    /// Splits a full leaf at its middle and inserts the entry at `pos` into the half it
    /// falls in; returns the new right leaf and its smallest key.
    #[verifier::rlimit(40)]
    pub fn insert_and_split(&mut self, pos: usize, key: u64, value: V) -> (r: (u64, Node<V>))
        requires
            old(self).wf(),
            old(self).keys@.len() == old(self).order,
            pos == lb(old(self).keys@, key),
        ensures
            final(self).order == old(self).order,
            leaf_split(
                *final(self),
                r.0,
                r.1,
                old(self).entries().insert(pos as int, (key, value)),
            ),
            final(self).keys@.len() == split_point(old(self).order as int, pos as int),
    {
        let ghost ks = old(self).keys@.insert(pos as int, key);
        proof {
            lemma_sorted_insert(old(self).keys@, key);
            lemma_lb(old(self).keys@, key);
        }
        let mid = self.keys.len() / 2;
        let mut new_leaf = Leaf::new(self.order);
        new_leaf.keys = self.keys.split_off(mid);
        new_leaf.values = self.values.split_off(mid);
        if pos < mid {
            self.keys.insert(pos, key);
            self.values.insert(pos, value);
        } else {
            new_leaf.keys.insert(pos - mid, key);
            new_leaf.values.insert(pos - mid, value);
        }
        proof {
            let vs = old(self).values@.insert(pos as int, value);
            let cut: int = if pos < mid { mid as int + 1 } else { mid as int };
            assert(self.keys@ =~= ks.subrange(0, cut));
            assert(new_leaf.keys@ =~= ks.subrange(cut, ks.len() as int));
            assert(self.values@ =~= vs.subrange(0, cut));
            assert(new_leaf.values@ =~= vs.subrange(cut, vs.len() as int));
            lemma_sorted_parts(ks, cut);
            lemma_zip_insert(old(self).keys@, old(self).values@, pos as int, key, value);
            lemma_zip_split(ks, vs, cut);
        }
        let min_key = new_leaf.keys[0];
        (min_key, Node::Leaf(new_leaf))
    }

    /// The smallest key of the leaf.
    pub fn min_key(&self) -> (r: Option<u64>)
        ensures
            r == (if self.keys@.len() == 0 { None } else { Some(self.keys@[0]) }),
    {
        if self.keys.len() == 0 {
            None
        } else {
            Some(self.keys[0])
        }
    }

    /// The largest key of the leaf.
    pub fn max_key(&self) -> (r: Option<u64>)
        ensures
            r == (if self.keys@.len() == 0 {
                None
            } else {
                Some(self.keys@[self.keys@.len() - 1])
            }),
    {
        if self.keys.len() == 0 {
            None
        } else {
            Some(self.keys[self.keys.len() - 1])
        }
    }

    /// The number of entries in the leaf.
    pub fn size(&self) -> (r: usize)
        ensures
            r == self.values@.len(),
    {
        self.values.len()
    }
}

impl<V> Branch<V> {
    pub fn new(order: usize) -> (r: Self)
        requires
            order < usize::MAX,
        ensures
            r.keys@.len() == 0,
            r.children@.len() == 0,
            r.order == order,
            r.total == 0,
    {
        Branch {
            keys: Vec::with_capacity(order),
            children: Vec::with_capacity(order + 1),
            order,
            total: 0,
        }
    }

    /// Inserts the entry into the child that the separators route it to. When that child
    /// splits, the new separator and node are taken in; a full branch splits in turn and
    /// returns its right half with the separator that moves up.
    pub fn insert(&mut self, key: u64, value: V) -> (r: Option<(u64, Node<V>)>)
        requires
            Node::Branch(*old(self)).wf(),
            entries_of(old(self).children@).len() < usize::MAX,
        ensures
            final(self).order == old(self).order,
            match r {
                None => {
                    &&& Node::Branch(*final(self)).wf()
                    &&& entries_of(final(self).children@) == ins(
                        entries_of(old(self).children@),
                        key,
                        value,
                    )
                },
                Some((k, n)) => {
                    &&& n is Branch
                    &&& node_split(
                        Node::Branch(*final(self)),
                        k,
                        n,
                        ins(entries_of(old(self).children@), key, value),
                    )
                },
            },
            r is None ==> final(self).keys@.len() == old(self).keys@.len() || final(self).keys@.len()
                == old(self).keys@.len() + 1,
            r is None && final(self).keys@.len() == old(self).keys@.len() ==> final(self).total
                == old(self).total,
            r is None && final(self).keys@.len() == old(self).keys@.len() + 1 ==> final(self).total
                == old(self).total + 1,
            r matches Some((k, n)) ==> final(self).total == sum_stored(final(self).children@)
                && n->Branch_0.total == sum_stored(n->Branch_0.children@),
        decreases *old(self),
    {
        let ghost ok = old(self).keys@;
        let ghost oc = old(self).children@;
        let pos = lower_bound(&self.keys, key);
        proof {
            lemma_split_run(oc, pos as int);
            lemma_lb_range(keys_of(entries_of(oc)), key);
        }
        let mut child = self.children.remove(pos);
        assert(decreases_to!(*old(self) => child));
        let res = child.insert(key, value);
        match res {
            None => {
                self.children.insert(pos, child);
                proof {
                    assert(self.children@ =~= oc.update(pos as int, child));
                    lemma_branch_update(ok, oc, self.order, pos as int, key, value, child);
                }
                None
            },
            Some((new_key, new_node)) => {
                self.children.insert(pos, child);
                proof {
                    assert(self.children@ =~= oc.update(pos as int, child));
                    lemma_branch_split_child(
                        ok,
                        oc,
                        self.order,
                        pos as int,
                        key,
                        value,
                        child,
                        new_key,
                        new_node,
                    );
                }
                if self.keys.len() == self.order {
                    let _ = self.children.len();
                    Some(self.insert_and_split(pos, new_key, new_node))
                } else {
                    self.keys.insert(pos, new_key);
                    self.children.insert(pos + 1, new_node);
                    self.total = self.total + 1;
                    None
                }
            },
        }
    }

    /// Takes in a new separator and node at `pos` into a full branch and splits it: the
    /// middle separator moves up, the separators and children after it go to a new
    /// branch, returned with it.
    fn insert_and_split(&mut self, pos: usize, new_key: u64, new_node: Node<V>) -> (r: (
        u64,
        Node<V>,
    ))
        requires
            old(self).keys@.len() == old(self).order,
            old(self).order < usize::MAX,
            old(self).children@.len() == old(self).keys@.len() + 1,
            pos <= old(self).keys@.len(),
            branch_ok(
                old(self).keys@.insert(pos as int, new_key),
                old(self).children@.insert(pos as int + 1, new_node),
                old(self).order,
            ),
            entries_of(old(self).children@.insert(pos as int + 1, new_node)).len()
                <= usize::MAX,
        ensures
            final(self).order == old(self).order,
            r.1 is Branch,
            node_split(
                Node::Branch(*final(self)),
                r.0,
                r.1,
                entries_of(old(self).children@.insert(pos as int + 1, new_node)),
            ),
            final(self).total == sum_stored(final(self).children@),
            r.1->Branch_0.total == sum_stored(r.1->Branch_0.children@),
    {
        let ghost ks = old(self).keys@.insert(pos as int, new_key);
        let ghost cs = old(self).children@.insert(pos as int + 1, new_node);
        let mid = self.keys.len() / 2;
        let mut new_branch = Branch::new(self.order);
        self.keys.insert(pos, new_key);
        self.children.insert(pos + 1, new_node);
        proof {
            assert(self.keys@ =~= ks);
            assert(self.children@ =~= cs);
            lemma_branch_halves(ks, cs, self.order, mid as int);
        }
        let mid_key = self.keys[mid];
        new_branch.keys = self.keys.split_off(mid + 1);
        new_branch.children = self.children.split_off(mid + 1);
        self.keys.truncate(mid);
        proof {
            assert(self.keys@ =~= ks.subrange(0, mid as int));
            assert(self.children@ =~= cs.subrange(0, mid as int + 1));
            assert(new_branch.keys@ =~= ks.subrange(mid as int + 1, ks.len() as int));
            assert(new_branch.children@ =~= cs.subrange(mid as int + 1, cs.len() as int));
            lemma_entries_of_append(self.children@, new_branch.children@);
        }
        new_branch.update_count();
        self.update_count();
        (mid_key, Node::Branch(new_branch))
    }

    /// Recomputes the kept count as the sum of the counts kept by the children.
    pub fn update_count(&mut self)
        requires
            forall|i: int| 0 <= i < old(self).children@.len() ==> (#[trigger] old(self).children@[i]).wf(),
            entries_of(old(self).children@).len() <= usize::MAX,
        ensures
            final(self).total == sum_stored(old(self).children@),
            final(self).total <= entries_of(old(self).children@).len(),
            final(self).keys == old(self).keys,
            final(self).children == old(self).children,
            final(self).order == old(self).order,
    {
        let ghost cs = self.children@;
        let mut total: usize = 0;
        let mut i: usize = 0;
        proof {
            lemma_sum_stored_le(cs);
        }
        while i < self.children.len()
            invariant
                cs == self.children@,
                i <= cs.len(),
                forall|j: int| 0 <= j < cs.len() ==> (#[trigger] cs[j]).wf(),
                entries_of(cs).len() <= usize::MAX,
                total == sum_stored(cs.subrange(0, i as int)),
            decreases cs.len() - i,
        {
            let ghost pre = cs.subrange(0, i as int);
            let ghost pre1 = cs.subrange(0, i as int + 1);
            proof {
                assert(pre1.drop_last() =~= pre);
                assert(pre1.last() == cs[i as int]);
                assert forall|j: int| 0 <= j < pre1.len() implies (#[trigger] pre1[j]).wf() by {
                    assert(pre1[j] == cs[j]);
                }
                lemma_sum_stored_le(pre1);
                assert(cs =~= pre1 + cs.subrange(i as int + 1, cs.len() as int));
                lemma_entries_of_append(pre1, cs.subrange(i as int + 1, cs.len() as int));
            }
            total = total + self.children[i].size();
            i = i + 1;
        }
        proof {
            assert(cs.subrange(0, cs.len() as int) =~= cs);
        }
        self.total = total;
    }

    /// Whether the branch holds as many separators as it was made for.
    pub fn is_full(&self) -> (r: bool)
        ensures
            r == (self.keys@.len() == self.order),
    {
        self.keys.len() == self.order
    }

    /// The smallest key under the branch.
    pub fn min_key(&self) -> (r: Option<u64>)
        requires
            Node::Branch(*self).wf(),
        ensures
            r == Some(entries_of(self.children@)[0].0),
        decreases *self,
    {
        proof {
            lemma_run_ends(self.children@);
        }
        self.children[0].min_key()
    }

    /// The largest key under the branch.
    pub fn max_key(&self) -> (r: Option<u64>)
        requires
            Node::Branch(*self).wf(),
        ensures
            r == Some(entries_of(self.children@)[entries_of(self.children@).len() - 1].0),
        decreases *self,
    {
        proof {
            lemma_run_ends(self.children@);
        }
        self.children[self.children.len() - 1].max_key()
    }

    /// The entry count the branch keeps.
    pub fn size(&self) -> (r: usize)
        ensures
            r == self.total,
    {
        self.total
    }
}

impl<V> Node<V> {
    pub fn new_leaf(leaf: Leaf<V>) -> (r: Self)
        ensures
            r == Node::Leaf(leaf),
    {
        Node::Leaf(leaf)
    }

    pub fn new_branch(branch: Branch<V>) -> (r: Self)
        ensures
            r == Node::Branch(branch),
    {
        Node::Branch(branch)
    }

    /// Inserts the entry in front of the entries with an equal key; returns the new right
    /// sibling and its separator when the node splits.
    pub fn insert(&mut self, key: u64, value: V) -> (r: Option<(u64, Node<V>)>)
        requires
            old(self).wf(),
            old(self).entries().len() < usize::MAX,
        ensures
            final(self).order() == old(self).order(),
            (*final(self) is Leaf) <==> (*old(self) is Leaf),
            match r {
                None => {
                    &&& final(self).wf()
                    &&& final(self).entries() == ins(old(self).entries(), key, value)
                },
                Some((k, n)) => node_split(*final(self), k, n, ins(old(self).entries(), key, value)),
            },
            *old(self) is Leaf ==> (r is None <==> old(self)->Leaf_0.keys@.len()
                < old(self)->Leaf_0.order),
            *old(self) is Leaf && r is Some ==> final(self)->Leaf_0.keys@.len() == split_point(
                old(self)->Leaf_0.order as int,
                lb(old(self)->Leaf_0.keys@, key),
            ),
        decreases *old(self),
    {
        match self {
            Node::Leaf(leaf) => {
                proof {
                    lemma_leaf_keys(*leaf);
                }
                leaf.insert(key, value)
            },
            Node::Branch(branch) => branch.insert(key, value),
        }
    }

    /// The smallest key of a well-formed node, if it has entries.
    pub fn min_key(&self) -> (r: Option<u64>)
        requires
            self.wf(),
        ensures
            r == (if self.entries().len() == 0 { None } else { Some(self.entries()[0].0) }),
        decreases *self,
    {
        match self {
            Node::Leaf(leaf) => leaf.min_key(),
            Node::Branch(branch) => {
                proof {
                    lemma_run_ends(branch.children@);
                }
                branch.min_key()
            },
        }
    }

    /// The largest key of a well-formed node, if it has entries.
    pub fn max_key(&self) -> (r: Option<u64>)
        requires
            self.wf(),
        ensures
            r == (if self.entries().len() == 0 {
                None
            } else {
                Some(self.entries()[self.entries().len() - 1].0)
            }),
        decreases *self,
    {
        match self {
            Node::Leaf(leaf) => leaf.max_key(),
            Node::Branch(branch) => {
                proof {
                    lemma_run_ends(branch.children@);
                }
                branch.max_key()
            },
        }
    }

    /// The entry count the node keeps.
    pub fn size(&self) -> (r: usize)
        requires
            self is Leaf ==> self->Leaf_0.wf(),
        ensures
            r == self.stored_size(),
    {
        match self {
            Node::Leaf(leaf) => leaf.size(),
            Node::Branch(branch) => branch.size(),
        }
    }

    pub fn is_leaf(&self) -> (r: bool)
        ensures
            r == (self is Leaf),
    {
        match self {
            Node::Leaf(_) => true,
            _ => false,
        }
    }

    pub fn is_branch(&self) -> (r: bool)
        ensures
            r == (self is Branch),
    {
        match self {
            Node::Branch(_) => true,
            _ => false,
        }
    }

    /// A node without keys: an empty leaf, or a branch without separators.
    pub fn is_empty(&self) -> (r: bool)
        ensures
            r == (match self {
                Node::Leaf(l) => l.keys@.len() == 0,
                Node::Branch(b) => b.keys@.len() == 0,
            }),
    {
        match self {
            Node::Leaf(leaf) => leaf.keys.len() == 0,
            Node::Branch(branch) => branch.keys.len() == 0,
        }
    }

    /// A node holding as many keys as it was made for.
    pub fn is_full(&self) -> (r: bool)
        ensures
            r == (match self {
                Node::Leaf(l) => l.keys@.len() == l.order,
                Node::Branch(b) => b.keys@.len() == b.order,
            }),
    {
        match self {
            Node::Leaf(leaf) => leaf.keys.len() == leaf.order,
            Node::Branch(branch) => branch.is_full(),
        }
    }
}

impl<V> Node<V> {
    /// The value of the first entry with `key` in the leaf the separators route `key` to.
    pub fn find(&self, key: &u64) -> (r: Option<&V>)
        requires
            self.wf(),
        ensures
            match r {
                Some(v) => leaf_find(self.route(*key), *key) == Some(*v),
                None => leaf_find(self.route(*key), *key) is None,
            },
        decreases *self,
    {
        match self {
            Node::Leaf(leaf) => {
                let pos = lower_bound(&leaf.keys, *key);
                if pos < leaf.keys.len() && leaf.keys[pos] == *key {
                    Some(&leaf.values[pos])
                } else {
                    None
                }
            },
            Node::Branch(branch) => {
                let pos = lower_bound(&branch.keys, *key);
                if pos < branch.children.len() {
                    branch.children[pos].find(key)
                } else {
                    None
                }
            },
        }
    }

    /// Whether the leaf the separators route `key` to holds `key`.
    pub fn contains(&self, key: &u64) -> (r: bool)
        requires
            self.wf(),
        ensures
            r == self.route(*key).keys@.contains(*key),
        decreases *self,
    {
        match self {
            Node::Leaf(leaf) => {
                let mut i: usize = 0;
                while i < leaf.keys.len()
                    invariant
                        *self == Node::Leaf(*leaf),
                        i <= leaf.keys@.len(),
                        forall|j: int| 0 <= j < i ==> leaf.keys@[j] != *key,
                    decreases leaf.keys@.len() - i,
                {
                    if leaf.keys[i] == *key {
                        assert(self.route(*key) == *leaf);
                        assert(leaf.keys@[i as int] == *key);
                        assert(leaf.keys@.contains(*key));
                        return true;
                    }
                    i = i + 1;
                }
                false
            },
            Node::Branch(branch) => {
                let pos = lower_bound(&branch.keys, *key);
                if pos < branch.children.len() {
                    branch.children[pos].contains(key)
                } else {
                    false
                }
            },
        }
    }

    /// The position of `key` within the leaf the separators route it to.
    pub fn index_of(&self, key: &u64) -> (r: Option<usize>)
        requires
            self.wf(),
        ensures
            r == leaf_index(self.route(*key), *key),
        decreases *self,
    {
        match self {
            Node::Leaf(leaf) => {
                let pos = lower_bound(&leaf.keys, *key);
                if pos < leaf.keys.len() && leaf.keys[pos] == *key {
                    Some(pos)
                } else {
                    None
                }
            },
            Node::Branch(branch) => {
                let pos = lower_bound(&branch.keys, *key);
                if pos < branch.children.len() {
                    branch.children[pos].index_of(key)
                } else {
                    None
                }
            },
        }
    }

    /// The key at position `index`, counted with the entry counts the nodes keep.
    pub fn key_at_index(&self, index: usize) -> (r: Option<u64>)
        requires
            self.wf(),
        ensures
            match self.at(index as int) {
                Some(e) => r == Some(e.0),
                None => r is None,
            },
        decreases *self,
    {
        match self {
            Node::Leaf(leaf) => {
                if index < leaf.keys.len() {
                    Some(leaf.keys[index])
                } else {
                    None
                }
            },
            Node::Branch(branch) => {
                if index >= branch.size() {
                    return None;
                }
                let ghost cs = branch.children@;
                let mut current_index = index;
                let mut i: usize = 0;
                assert(cs.subrange(0, cs.len() as int) =~= cs);
                while i < branch.children.len()
                    invariant
                        cs == branch.children@,
                        *self == Node::Branch(*branch),
                        index < branch.total,
                        forall|j: int| 0 <= j < cs.len() ==> (#[trigger] cs[j]).wf(),
                        i <= cs.len(),
                        run_at(cs, index as int) == run_at(
                            cs.subrange(i as int, cs.len() as int),
                            current_index as int,
                        ),
                    decreases cs.len() - i,
                {
                    proof {
                        let t = cs.subrange(i as int, cs.len() as int);
                        assert(t[0] == cs[i as int]);
                        assert(t.subrange(1, t.len() as int) =~= cs.subrange(
                            i as int + 1,
                            cs.len() as int,
                        ));
                    }
                    let size = branch.children[i].size();
                    if current_index < size {
                        proof {
                            let t = cs.subrange(i as int, cs.len() as int);
                            assert(run_at(t, current_index as int) == cs[i as int].at(
                                current_index as int,
                            ));
                            assert(self.at(index as int) == run_at(cs, index as int));
                        }
                        return branch.children[i].key_at_index(current_index);
                    }
                    current_index = current_index - size;
                    i = i + 1;
                }
                None
            },
        }
    }

    /// The value at position `index`, counted with the entry counts the nodes keep.
    pub fn at_index(&self, index: usize) -> (r: Option<&V>)
        requires
            self.wf(),
        ensures
            match self.at(index as int) {
                Some(e) => r == Some(&e.1),
                None => r is None,
            },
        decreases *self,
    {
        match self {
            Node::Leaf(leaf) => {
                if index < leaf.values.len() {
                    Some(&leaf.values[index])
                } else {
                    None
                }
            },
            Node::Branch(branch) => {
                if index >= branch.size() {
                    return None;
                }
                let ghost cs = branch.children@;
                let mut current_index = index;
                let mut i: usize = 0;
                assert(cs.subrange(0, cs.len() as int) =~= cs);
                while i < branch.children.len()
                    invariant
                        cs == branch.children@,
                        *self == Node::Branch(*branch),
                        index < branch.total,
                        forall|j: int| 0 <= j < cs.len() ==> (#[trigger] cs[j]).wf(),
                        i <= cs.len(),
                        run_at(cs, index as int) == run_at(
                            cs.subrange(i as int, cs.len() as int),
                            current_index as int,
                        ),
                    decreases cs.len() - i,
                {
                    proof {
                        let t = cs.subrange(i as int, cs.len() as int);
                        assert(t[0] == cs[i as int]);
                        assert(t.subrange(1, t.len() as int) =~= cs.subrange(
                            i as int + 1,
                            cs.len() as int,
                        ));
                    }
                    let size = branch.children[i].size();
                    if current_index < size {
                        proof {
                            let t = cs.subrange(i as int, cs.len() as int);
                            assert(run_at(t, current_index as int) == cs[i as int].at(
                                current_index as int,
                            ));
                            assert(self.at(index as int) == run_at(cs, index as int));
                        }
                        return branch.children[i].at_index(current_index);
                    }
                    current_index = current_index - size;
                    i = i + 1;
                }
                None
            },
        }
    }
}

/// How many entries a full leaf of `order` keys keeps when an entry goes in at `pos`: it
/// is cut at `order / 2`, and the entry joins the left part when it goes in before the cut.
pub open spec fn split_point(order: int, pos: int) -> int {
    if pos < order / 2 {
        order / 2 + 1
    } else {
        order / 2
    }
}

/// The outcome of splitting a leaf while inserting into it: a well-formed left leaf and a
/// non-empty right leaf made with the same order, whose entries together are `all`,
/// with the right leaf's smallest key `k` separating them.
pub open spec fn leaf_split<V>(left: Leaf<V>, k: u64, right: Node<V>, all: Seq<(u64, V)>) -> bool {
    &&& left.wf()
    &&& right.wf()
    &&& right is Leaf
    &&& right.order() == left.order
    &&& left.entries() + right.entries() == all
    &&& left.entries().len() >= 1
    &&& right.entries().len() >= 1
    &&& k == right.entries()[0].0
    &&& all_le(left.entries(), k)
    &&& all_ge(right.entries(), k)
}

/// Pairs each key with the value at the same position.
pub open spec fn zip<V>(ks: Seq<u64>, vs: Seq<V>) -> Seq<(u64, V)> {
    Seq::new(ks.len(), |i: int| (ks[i], vs[i]))
}

pub proof fn lemma_zip_insert<V>(ks: Seq<u64>, vs: Seq<V>, p: int, k: u64, v: V)
    requires
        ks.len() == vs.len(),
        0 <= p <= ks.len(),
    ensures
        zip(ks.insert(p, k), vs.insert(p, v)) == zip(ks, vs).insert(p, (k, v)),
{
    assert(zip(ks.insert(p, k), vs.insert(p, v)) =~= zip(ks, vs).insert(p, (k, v)));
}

pub proof fn lemma_zip_split<V>(ks: Seq<u64>, vs: Seq<V>, m: int)
    requires
        ks.len() == vs.len(),
        0 <= m <= ks.len(),
    ensures
        zip(ks, vs) == zip(ks.subrange(0, m), vs.subrange(0, m)) + zip(
            ks.subrange(m, ks.len() as int),
            vs.subrange(m, vs.len() as int),
        ),
{
    assert(zip(ks, vs) =~= zip(ks.subrange(0, m), vs.subrange(0, m)) + zip(
        ks.subrange(m, ks.len() as int),
        vs.subrange(m, vs.len() as int),
    ));
}

/// The entries of a run of subtrees, left to right.
pub open spec fn entries_of<V>(s: Seq<Node<V>>) -> Seq<(u64, V)>
    decreases s,
{
    if s.len() == 0 {
        Seq::empty()
    } else {
        entries_of(s.drop_last()) + s.last().entries()
    }
}

/// Every entry of `e` has a key at most `k`.
pub open spec fn all_le<V>(e: Seq<(u64, V)>, k: u64) -> bool {
    forall|i: int| 0 <= i < e.len() ==> e[i].0 <= k
}

/// Every entry of `e` has a key at least `k`.
pub open spec fn all_ge<V>(e: Seq<(u64, V)>, k: u64) -> bool {
    forall|i: int| 0 <= i < e.len() ==> e[i].0 >= k
}

impl<V> Node<V> {
    /// The key-value entries of the subtree, in order.
    pub open spec fn entries(&self) -> Seq<(u64, V)>
        decreases self,
    {
        match self {
            Node::Leaf(l) => l.entries(),
            Node::Branch(b) => entries_of(b.children@),
        }
    }

    pub open spec fn order(&self) -> usize {
        match self {
            Node::Leaf(l) => l.order,
            Node::Branch(b) => b.order,
        }
    }

    /// The entry count the node keeps: a leaf's length, a branch's `total`.
    pub open spec fn stored_size(&self) -> int {
        match self {
            Node::Leaf(l) => l.keys@.len() as int,
            Node::Branch(b) => b.total as int,
        }
    }

    /// Well formed: sorted leaves, non-empty children under branches, separators that
    /// bound their neighbours, and kept counts that never exceed the real ones.
    pub open spec fn wf(&self) -> bool
        decreases self,
    {
        match self {
            Node::Leaf(l) => l.wf(),
            Node::Branch(b) => {
                &&& b.order >= 2
                &&& b.keys@.len() <= b.order
                &&& b.children@.len() == b.keys@.len() + 1
                &&& sorted(b.keys@)
                &&& forall|i: int|
                    0 <= i < b.children@.len() ==> {
                        &&& (#[trigger] b.children@[i]).wf()
                        &&& b.children@[i].order() == b.order
                        &&& b.children@[i].entries().len() > 0
                    }
                &&& bounded(b.keys@, b.children@)
                &&& b.total <= entries_of(b.children@).len()
            },
        }
    }
}

/// The shape a branch needs apart from its length limit and its kept count: one more
/// child than keys, sorted separators bounding their neighbours, and well-formed
/// non-empty children made with `order`.
pub open spec fn branch_ok<V>(keys: Seq<u64>, children: Seq<Node<V>>, order: usize) -> bool {
    &&& order >= 2
    &&& children.len() == keys.len() + 1
    &&& sorted(keys)
    &&& forall|i: int|
        0 <= i < children.len() ==> {
            &&& (#[trigger] children[i]).wf()
            &&& children[i].order() == order
            &&& children[i].entries().len() > 0
        }
    &&& bounded(keys, children)
}

/// Each separator `keys[i]` is an upper bound of child `i` and a lower bound of child `i + 1`.
pub open spec fn bounded<V>(keys: Seq<u64>, children: Seq<Node<V>>) -> bool {
    &&& forall|i: int| 0 <= i < keys.len() ==> all_le(#[trigger] children[i].entries(), keys[i])
    &&& forall|i: int|
        0 <= i < keys.len() ==> all_ge(#[trigger] children[i + 1].entries(), keys[i])
}

/// The entry at `p` of a leaf when its key is `k`.
pub open spec fn leaf_find<V>(l: Leaf<V>, k: u64) -> Option<V> {
    let p = lb(l.keys@, k);
    if 0 <= p < l.keys@.len() && l.keys@[p] == k {
        Some(l.values@[p])
    } else {
        None
    }
}

/// The position in a leaf of its first entry with key `k`.
pub open spec fn leaf_index<V>(l: Leaf<V>, k: u64) -> Option<usize> {
    let p = lb(l.keys@, k);
    if 0 <= p < l.keys@.len() && l.keys@[p] == k {
        Some(p as usize)
    } else {
        None
    }
}

/// Some entry of `e` has key `k`.
pub open spec fn key_in<V>(e: Seq<(u64, V)>, k: u64) -> bool {
    exists|i: int| 0 <= i < e.len() && e[i].0 == k
}

/// The separators of a run of subtrees.
pub open spec fn seps_of<V>(s: Seq<Node<V>>) -> Set<u64>
    decreases s,
{
    if s.len() == 0 {
        Set::empty()
    } else {
        seps_of(s.drop_last()).union(s.last().seps())
    }
}

/// The entry found at position `idx` of a run of subtrees when the position is counted
/// with the entry counts the subtrees keep.
pub open spec fn run_at<V>(s: Seq<Node<V>>, idx: int) -> Option<(u64, V)>
    decreases s,
{
    if s.len() == 0 {
        None
    } else if idx < s[0].stored_size() {
        s[0].at(idx)
    } else {
        run_at(s.subrange(1, s.len() as int), idx - s[0].stored_size())
    }
}

impl<V> Node<V> {
    /// The leaf that the separators route key `k` to: at each branch, the child at the
    /// position of `k` among the separators.
    pub open spec fn route(&self, k: u64) -> Leaf<V>
        decreases self,
    {
        match self {
            Node::Leaf(l) => *l,
            Node::Branch(b) => {
                let pos = lb(b.keys@, k);
                if 0 <= pos < b.children@.len() {
                    b.children@[pos].route(k)
                } else {
                    arbitrary()
                }
            },
        }
    }

    /// All separator keys of the subtree.
    pub open spec fn seps(&self) -> Set<u64>
        decreases self,
    {
        match self {
            Node::Leaf(_) => Set::empty(),
            Node::Branch(b) => b.keys@.to_set().union(seps_of(b.children@)),
        }
    }

    /// The entry at position `idx`, counted with the entry counts the nodes keep.
    pub open spec fn at(&self, idx: int) -> Option<(u64, V)>
        decreases self,
    {
        match self {
            Node::Leaf(l) => if 0 <= idx < l.keys@.len() {
                Some((l.keys@[idx], l.values@[idx]))
            } else {
                None
            },
            Node::Branch(b) => if idx < 0 || idx >= b.total {
                None
            } else {
                run_at(b.children@, idx)
            },
        }
    }

    /// Every branch keeps the real entry count of its subtree.
    pub open spec fn exact_sizes(&self) -> bool
        decreases self,
    {
        match self {
            Node::Leaf(_) => true,
            Node::Branch(b) => {
                &&& b.total == entries_of(b.children@).len()
                &&& forall|i: int|
                    0 <= i < b.children@.len() ==> (#[trigger] b.children@[i]).exact_sizes()
            },
        }
    }
}

/// Inserts an entry in front of the entries with an equal key.
pub open spec fn ins<V>(e: Seq<(u64, V)>, key: u64, value: V) -> Seq<(u64, V)> {
    e.insert(lb(keys_of(e), key), (key, value))
}

/// Inserting adds one entry.
pub proof fn lemma_ins_len<V>(e: Seq<(u64, V)>, key: u64, value: V)
    ensures
        ins(e, key, value).len() == e.len() + 1,
{
    lemma_lb_range(keys_of(e), key);
    e.insert_ensures(lb(keys_of(e), key), (key, value));
}

/// The outcome of splitting a node while inserting into it: two well-formed, non-empty
/// nodes of the same kind and order whose entries together are `all`, with `k` between
/// them.
pub open spec fn node_split<V>(left: Node<V>, k: u64, right: Node<V>, all: Seq<(u64, V)>) -> bool {
    &&& left.wf()
    &&& right.wf()
    &&& right.order() == left.order()
    &&& (left is Leaf <==> right is Leaf)
    &&& left.entries() + right.entries() == all
    &&& left.entries().len() >= 1
    &&& right.entries().len() >= 1
    &&& all_le(left.entries(), k)
    &&& all_ge(right.entries(), k)
}

/// The sum of the entry counts kept by a run of subtrees.
pub open spec fn sum_stored<V>(s: Seq<Node<V>>) -> int
    decreases s.len(),
{
    if s.len() == 0 {
        0
    } else {
        sum_stored(s.drop_last()) + s.last().stored_size()
    }
}

pub proof fn lemma_keys_of_append<V>(a: Seq<(u64, V)>, b: Seq<(u64, V)>)
    ensures
        keys_of(a + b) == keys_of(a) + keys_of(b),
{
    assert(keys_of(a + b) =~= keys_of(a) + keys_of(b));
}

pub proof fn lemma_leaf_keys<V>(l: Leaf<V>)
    requires
        l.keys@.len() == l.values@.len(),
    ensures
        keys_of(l.entries()) == l.keys@,
{
    assert(keys_of(l.entries()) =~= l.keys@);
}

pub proof fn lemma_entries_of_append<V>(a: Seq<Node<V>>, b: Seq<Node<V>>)
    ensures
        entries_of(a + b) == entries_of(a) + entries_of(b),
    decreases b.len(),
{
    if b.len() == 0 {
        assert(a + b =~= a);
        assert(entries_of(a) + entries_of(b) =~= entries_of(a));
    } else {
        lemma_entries_of_append(a, b.drop_last());
        assert((a + b).drop_last() =~= a + b.drop_last());
        assert((a + b).last() == b.last());
        assert(entries_of(a + b) =~= entries_of(a) + entries_of(b));
    }
}

pub proof fn lemma_entries_of_one<V>(n: Node<V>)
    ensures
        entries_of(seq![n]) == n.entries(),
{
    assert(seq![n].drop_last() =~= Seq::<Node<V>>::empty());
    assert(entries_of(Seq::<Node<V>>::empty()) == Seq::<(u64, V)>::empty());
    assert(seq![n].last() == n);
    assert(entries_of(seq![n]) =~= n.entries());
}

pub proof fn lemma_sum_stored_append<V>(a: Seq<Node<V>>, b: Seq<Node<V>>)
    ensures
        sum_stored(a + b) == sum_stored(a) + sum_stored(b),
    decreases b.len(),
{
    if b.len() == 0 {
        assert(a + b =~= a);
    } else {
        lemma_sum_stored_append(a, b.drop_last());
        assert((a + b).drop_last() =~= a + b.drop_last());
    }
}

/// A well-formed node keeps a count between zero and its real entry count.
pub proof fn lemma_stored_le<V>(n: Node<V>)
    requires
        n.wf(),
    ensures
        0 <= n.stored_size() <= n.entries().len(),
{
}

/// The counts kept by well-formed subtrees add up to at most their entries.
pub proof fn lemma_sum_stored_le<V>(s: Seq<Node<V>>)
    requires
        forall|i: int| 0 <= i < s.len() ==> (#[trigger] s[i]).wf(),
    ensures
        0 <= sum_stored(s) <= entries_of(s).len(),
    decreases s.len(),
{
    if s.len() > 0 {
        let t = s.drop_last();
        assert forall|i: int| 0 <= i < t.len() implies (#[trigger] t[i]).wf() by {
            assert(t[i] == s[i]);
        }
        lemma_sum_stored_le(t);
        lemma_stored_le(s.last());
    }
}

pub proof fn lemma_all_le_run<V>(s: Seq<Node<V>>, k: u64)
    requires
        forall|i: int| 0 <= i < s.len() ==> all_le(#[trigger] s[i].entries(), k),
    ensures
        all_le(entries_of(s), k),
    decreases s.len(),
{
    if s.len() > 0 {
        let t = s.drop_last();
        assert forall|i: int| 0 <= i < t.len() implies all_le(#[trigger] t[i].entries(), k) by {
            assert(t[i] == s[i]);
        }
        lemma_all_le_run(t, k);
        assert(all_le(s[s.len() - 1].entries(), k));
    }
}

pub proof fn lemma_all_ge_run<V>(s: Seq<Node<V>>, k: u64)
    requires
        forall|i: int| 0 <= i < s.len() ==> all_ge(#[trigger] s[i].entries(), k),
    ensures
        all_ge(entries_of(s), k),
    decreases s.len(),
{
    if s.len() > 0 {
        let t = s.drop_last();
        assert forall|i: int| 0 <= i < t.len() implies all_ge(#[trigger] t[i].entries(), k) by {
            assert(t[i] == s[i]);
        }
        lemma_all_ge_run(t, k);
        assert(all_ge(s[s.len() - 1].entries(), k));
    }
}

/// `lb` over keys below `k`, then any keys, then keys not below `k`.
pub proof fn lemma_lb_concat(a: Seq<u64>, b: Seq<u64>, c: Seq<u64>, k: u64)
    requires
        forall|i: int| 0 <= i < a.len() ==> a[i] < k,
        forall|i: int| 0 <= i < c.len() ==> c[i] >= k,
    ensures
        lb(a + b + c, k) == a.len() + lb(b, k),
    decreases b.len() + c.len(),
{
    if c.len() > 0 {
        assert((a + b + c).drop_last() =~= a + b + c.drop_last());
        assert((a + b + c).last() == c.last());
        lemma_lb_concat(a, b, c.drop_last(), k);
    } else if b.len() > 0 {
        assert(a + b + c =~= a + b);
        assert((a + b).drop_last() =~= a + b.drop_last() + c);
        assert(a + b.drop_last() + c =~= a + b.drop_last());
        if b.last() >= k {
            lemma_lb_concat(a, b.drop_last(), c, k);
        }
    } else {
        assert(a + b + c =~= a);
        if a.len() > 0 {
            assert(a.last() < k);
        }
    }
}

pub proof fn lemma_all_le_insert<V>(e: Seq<(u64, V)>, p: int, x: (u64, V), k: u64)
    requires
        all_le(e, k),
        x.0 <= k,
        0 <= p <= e.len(),
    ensures
        all_le(e.insert(p, x), k),
{
    assert forall|i: int| 0 <= i < e.insert(p, x).len() implies e.insert(p, x)[i].0 <= k by {
        if i < p {
            assert(e.insert(p, x)[i] == e[i]);
        } else if i > p {
            assert(e.insert(p, x)[i] == e[i - 1]);
        }
    }
}

pub proof fn lemma_all_ge_insert<V>(e: Seq<(u64, V)>, p: int, x: (u64, V), k: u64)
    requires
        all_ge(e, k),
        x.0 >= k,
        0 <= p <= e.len(),
    ensures
        all_ge(e.insert(p, x), k),
{
    assert forall|i: int| 0 <= i < e.insert(p, x).len() implies e.insert(p, x)[i].0 >= k by {
        if i < p {
            assert(e.insert(p, x)[i] == e[i]);
        } else if i > p {
            assert(e.insert(p, x)[i] == e[i - 1]);
        }
    }
}

pub proof fn lemma_all_le_parts<V>(a: Seq<(u64, V)>, b: Seq<(u64, V)>, k: u64)
    requires
        all_le(a + b, k),
    ensures
        all_le(a, k),
        all_le(b, k),
{
    assert forall|i: int| 0 <= i < a.len() implies a[i].0 <= k by {
        assert((a + b)[i] == a[i]);
    }
    assert forall|i: int| 0 <= i < b.len() implies b[i].0 <= k by {
        assert((a + b)[a.len() + i] == b[i]);
    }
}

pub proof fn lemma_all_ge_parts<V>(a: Seq<(u64, V)>, b: Seq<(u64, V)>, k: u64)
    requires
        all_ge(a + b, k),
    ensures
        all_ge(a, k),
        all_ge(b, k),
{
    assert forall|i: int| 0 <= i < a.len() implies a[i].0 >= k by {
        assert((a + b)[i] == a[i]);
    }
    assert forall|i: int| 0 <= i < b.len() implies b[i].0 >= k by {
        assert((a + b)[a.len() + i] == b[i]);
    }
}

/// A run of subtrees is the part before `p`, the subtree at `p`, and the part after.
pub proof fn lemma_split_run<V>(s: Seq<Node<V>>, p: int)
    requires
        0 <= p < s.len(),
    ensures
        entries_of(s) == entries_of(s.subrange(0, p)) + s[p].entries() + entries_of(
            s.subrange(p + 1, s.len() as int),
        ),
{
    let a = s.subrange(0, p);
    let c = s.subrange(p + 1, s.len() as int);
    assert(s =~= a + seq![s[p]] + c);
    lemma_entries_of_append(a + seq![s[p]], c);
    lemma_entries_of_append(a, seq![s[p]]);
    lemma_entries_of_one(s[p]);
}

/// Inserting into the middle part of entries whose first part is below the key and
/// whose last part is not.
pub proof fn lemma_ins_concat<V>(
    a: Seq<(u64, V)>,
    b: Seq<(u64, V)>,
    c: Seq<(u64, V)>,
    key: u64,
    value: V,
)
    requires
        forall|i: int| 0 <= i < a.len() ==> a[i].0 < key,
        all_ge(c, key),
    ensures
        ins(a + b + c, key, value) == a + ins(b, key, value) + c,
{
    lemma_keys_of_append(a + b, c);
    lemma_keys_of_append(a, b);
    let ka = keys_of(a);
    let kc = keys_of(c);
    assert forall|i: int| 0 <= i < ka.len() implies ka[i] < key by {
        assert(ka[i] == a[i].0);
    }
    assert forall|i: int| 0 <= i < kc.len() implies kc[i] >= key by {
        assert(kc[i] == c[i].0);
    }
    lemma_lb_concat(ka, keys_of(b), kc, key);
    lemma_lb_range(keys_of(b), key);
    let p = lb(keys_of(b), key);
    assert((a + b + c).insert(a.len() + p, (key, value)) =~= a + b.insert(p, (key, value)) + c);
}

/// Replacing the child at `pos`, the lower-bound child of `key`, by one holding the
/// child's entries with the new entry.
pub proof fn lemma_branch_update<V>(
    keys: Seq<u64>,
    children: Seq<Node<V>>,
    order: usize,
    pos: int,
    key: u64,
    value: V,
    c2: Node<V>,
)
    requires
        branch_ok(keys, children, order),
        pos == lb(keys, key),
        c2.wf(),
        c2.order() == order,
        c2.entries() == ins(children[pos].entries(), key, value),
    ensures
        branch_ok(keys, children.update(pos, c2), order),
        entries_of(children.update(pos, c2)) == ins(entries_of(children), key, value),
{
    lemma_lb(keys, key);
    let b = children[pos].entries();
    lemma_lb_range(keys_of(b), key);
    let ch2 = children.update(pos, c2);
    if pos < keys.len() {
        lemma_all_le_insert(b, lb(keys_of(b), key), (key, value), keys[pos]);
    }
    if pos > 0 {
        let j = pos - 1;
        assert(all_ge(children[j + 1].entries(), keys[j]));
        lemma_all_ge_insert(b, lb(keys_of(b), key), (key, value), keys[pos - 1]);
    }
    assert forall|i: int| 0 <= i < keys.len() implies all_le(#[trigger] ch2[i].entries(), keys[i]) by {
    }
    assert forall|i: int| 0 <= i < keys.len() implies all_ge(#[trigger] ch2[i + 1].entries(), keys[i]) by {
    }
    assert forall|i: int| 0 <= i < ch2.len() implies {
        &&& (#[trigger] ch2[i]).wf()
        &&& ch2[i].order() == order
        &&& ch2[i].entries().len() > 0
    } by {
    }
    lemma_run_around(keys, children, pos, key);
    lemma_split_run(children, pos);
    lemma_split_run(ch2, pos);
    assert(ch2.subrange(0, pos) =~= children.subrange(0, pos));
    assert(ch2.subrange(pos + 1, ch2.len() as int) =~= children.subrange(pos + 1, children.len() as int));
    lemma_ins_concat(
        entries_of(children.subrange(0, pos)),
        b,
        entries_of(children.subrange(pos + 1, children.len() as int)),
        key,
        value,
    );
}

/// The children before the lower-bound child of `key` hold smaller keys; those after it
/// hold keys at least `key`.
pub proof fn lemma_run_around<V>(keys: Seq<u64>, children: Seq<Node<V>>, pos: int, key: u64)
    requires
        children.len() == keys.len() + 1,
        sorted(keys),
        bounded(keys, children),
        pos == lb(keys, key),
    ensures
        forall|i: int|
            0 <= i < entries_of(children.subrange(0, pos)).len() ==> entries_of(
                children.subrange(0, pos),
            )[i].0 < key,
        all_ge(entries_of(children.subrange(pos + 1, children.len() as int)), key),
        pos < keys.len() ==> all_ge(
            entries_of(children.subrange(pos + 1, children.len() as int)),
            keys[pos],
        ),
{
    lemma_lb(keys, key);
    let a = children.subrange(0, pos);
    let c = children.subrange(pos + 1, children.len() as int);
    if pos > 0 {
        let bound = keys[pos - 1];
        assert forall|i: int| 0 <= i < a.len() implies all_le(#[trigger] a[i].entries(), bound) by {
            assert(a[i] == children[i]);
            assert(all_le(children[i].entries(), keys[i]));
            assert(keys[i] <= keys[pos - 1]);
        }
        lemma_all_le_run(a, bound);
    } else {
        assert(a =~= Seq::<Node<V>>::empty());
    }
    assert forall|i: int| 0 <= i < c.len() implies all_ge(#[trigger] c[i].entries(), key) by {
        let j = pos + i;
        assert(c[i] == children[j + 1]);
        assert(all_ge(children[j + 1].entries(), keys[j]));
        assert(keys[pos] <= keys[pos + i]);
        assert(keys[pos] >= key);
    }
    lemma_all_ge_run(c, key);
    if pos < keys.len() {
        assert forall|i: int| 0 <= i < c.len() implies all_ge(#[trigger] c[i].entries(), keys[pos]) by {
            let j = pos + i;
            assert(c[i] == children[j + 1]);
            assert(all_ge(children[j + 1].entries(), keys[j]));
            assert(keys[pos] <= keys[pos + i]);
        }
        lemma_all_ge_run(c, keys[pos]);
    }
}

/// Replacing the child at `pos`, the lower-bound child of `key`, by the two halves of its
/// split, with the split key as a new separator.
#[verifier::rlimit(40)]
pub proof fn lemma_branch_split_child<V>(
    keys: Seq<u64>,
    children: Seq<Node<V>>,
    order: usize,
    pos: int,
    key: u64,
    value: V,
    c2: Node<V>,
    k: u64,
    n: Node<V>,
)
    requires
        branch_ok(keys, children, order),
        pos == lb(keys, key),
        c2.order() == order,
        node_split(c2, k, n, ins(children[pos].entries(), key, value)),
    ensures
        branch_ok(keys.insert(pos, k), children.update(pos, c2).insert(pos + 1, n), order),
        entries_of(children.update(pos, c2).insert(pos + 1, n)) == ins(
            entries_of(children),
            key,
            value,
        ),
{
    lemma_lb(keys, key);
    let b = children[pos].entries();
    lemma_lb_range(keys_of(b), key);
    let ib = ins(b, key, value);
    let ks2 = keys.insert(pos, k);
    let ch2 = children.update(pos, c2).insert(pos + 1, n);
    if pos < keys.len() {
        lemma_all_le_insert(b, lb(keys_of(b), key), (key, value), keys[pos]);
        lemma_all_le_parts(c2.entries(), n.entries(), keys[pos]);
        assert(n.entries()[0].0 <= keys[pos]);
    }
    if pos > 0 {
        let j = pos - 1;
        assert(all_ge(children[j + 1].entries(), keys[j]));
        lemma_all_ge_insert(b, lb(keys_of(b), key), (key, value), keys[pos - 1]);
        lemma_all_ge_parts(c2.entries(), n.entries(), keys[pos - 1]);
        assert(c2.entries()[0].0 >= keys[pos - 1]);
    }
    lemma_sorted_insert_between(keys, pos, k);
    assert forall|i: int| 0 <= i < ks2.len() implies all_le(#[trigger] ch2[i].entries(), ks2[i]) by {
        if i < pos {
            assert(ch2[i] == children[i]);
            assert(ks2[i] == keys[i]);
        } else if i == pos {
        } else if i == pos + 1 {
            assert(ks2[i] == keys[pos]);
        } else {
            assert(ch2[i] == children[i - 1]);
            assert(ks2[i] == keys[i - 1]);
        }
    }
    assert forall|i: int| 0 <= i < ks2.len() implies all_ge(#[trigger] ch2[i + 1].entries(), ks2[i]) by {
        if i + 1 < pos {
            assert(ch2[i + 1] == children[i + 1]);
            assert(ks2[i] == keys[i]);
        } else if i + 1 == pos {
            assert(ks2[i] == keys[pos - 1]);
        } else if i == pos {
        } else {
            assert(ch2[i + 1] == children[i]);
            assert(ks2[i] == keys[i - 1]);
            let j = i - 1;
            assert(all_ge(children[j + 1].entries(), keys[j]));
        }
    }
    assert forall|i: int| 0 <= i < ch2.len() implies {
        &&& (#[trigger] ch2[i]).wf()
        &&& ch2[i].order() == order
        &&& ch2[i].entries().len() > 0
    } by {
        if i < pos {
            assert(ch2[i] == children[i]);
        } else if i > pos + 1 {
            assert(ch2[i] == children[i - 1]);
        }
    }
    lemma_run_around(keys, children, pos, key);
    lemma_split_run(children, pos);
    let a = children.subrange(0, pos);
    let c = children.subrange(pos + 1, children.len() as int);
    assert(ch2 =~= a + seq![c2, n] + c);
    lemma_entries_of_append(a + seq![c2, n], c);
    lemma_entries_of_append(a, seq![c2, n]);
    lemma_entries_of_append(seq![c2], seq![n]);
    assert(seq![c2] + seq![n] =~= seq![c2, n]);
    lemma_entries_of_one(c2);
    lemma_entries_of_one(n);
    lemma_ins_concat(entries_of(a), b, entries_of(c), key, value);
    assert(entries_of(ch2) =~= ins(entries_of(children), key, value));
}

/// A run of non-empty subtrees that is not empty has entries, the first subtree's first
/// entry first and the last subtree's last entry last.
pub proof fn lemma_run_ends<V>(s: Seq<Node<V>>)
    requires
        s.len() > 0,
        forall|i: int| 0 <= i < s.len() ==> (#[trigger] s[i]).entries().len() > 0,
    ensures
        entries_of(s).len() > 0,
        entries_of(s)[0] == s[0].entries()[0],
        entries_of(s)[entries_of(s).len() - 1] == s[s.len() - 1].entries()[s[s.len()
            - 1].entries().len() - 1],
{
    lemma_split_run(s, 0);
    assert(s.subrange(0, 0) =~= Seq::<Node<V>>::empty());
    assert(entries_of(Seq::<Node<V>>::empty()) == Seq::<(u64, V)>::empty());
    assert(s[s.len() - 1].entries().len() > 0);
}

/// The two halves of a branch that overflowed by one key, split around `keys[mid]`.
#[verifier::rlimit(40)]
pub proof fn lemma_branch_halves<V>(keys: Seq<u64>, children: Seq<Node<V>>, order: usize, mid: int)
    requires
        branch_ok(keys, children, order),
        keys.len() == order + 1,
        mid == order / 2,
    ensures
        branch_ok(keys.subrange(0, mid), children.subrange(0, mid + 1), order),
        branch_ok(
            keys.subrange(mid + 1, keys.len() as int),
            children.subrange(mid + 1, children.len() as int),
            order,
        ),
        mid <= order,
        keys.len() - (mid + 1) <= order,
        all_le(entries_of(children.subrange(0, mid + 1)), keys[mid]),
        all_ge(entries_of(children.subrange(mid + 1, children.len() as int)), keys[mid]),
        entries_of(children) == entries_of(children.subrange(0, mid + 1)) + entries_of(
            children.subrange(mid + 1, children.len() as int),
        ),
        entries_of(children.subrange(0, mid + 1)).len() > 0,
        entries_of(children.subrange(mid + 1, children.len() as int)).len() > 0,
{
    let lk = keys.subrange(0, mid);
    let lc = children.subrange(0, mid + 1);
    let rk = keys.subrange(mid + 1, keys.len() as int);
    let rc = children.subrange(mid + 1, children.len() as int);
    lemma_sorted_parts(keys, mid);
    lemma_sorted_parts(keys, mid + 1);
    assert(children =~= lc + rc);
    lemma_entries_of_append(lc, rc);
    assert forall|i: int| 0 <= i < lc.len() implies {
        &&& (#[trigger] lc[i]).wf()
        &&& lc[i].order() == order
        &&& lc[i].entries().len() > 0
    } by {
        assert(lc[i] == children[i]);
    }
    assert forall|i: int| 0 <= i < rc.len() implies {
        &&& (#[trigger] rc[i]).wf()
        &&& rc[i].order() == order
        &&& rc[i].entries().len() > 0
    } by {
        assert(rc[i] == children[mid + 1 + i]);
    }
    assert forall|i: int| 0 <= i < lk.len() implies all_le(#[trigger] lc[i].entries(), lk[i]) by {
        assert(lc[i] == children[i]);
    }
    assert forall|i: int| 0 <= i < lk.len() implies all_ge(#[trigger] lc[i + 1].entries(), lk[i]) by {
        assert(lc[i + 1] == children[i + 1]);
    }
    assert forall|i: int| 0 <= i < rk.len() implies all_le(#[trigger] rc[i].entries(), rk[i]) by {
        let j = mid + 1 + i;
        assert(rc[i] == children[j]);
        assert(rk[i] == keys[j]);
    }
    assert forall|i: int| 0 <= i < rk.len() implies all_ge(#[trigger] rc[i + 1].entries(), rk[i]) by {
        let j = mid + 1 + i;
        assert(rc[i + 1] == children[j + 1]);
        assert(rk[i] == keys[j]);
    }
    assert forall|i: int| 0 <= i < lc.len() implies all_le(#[trigger] lc[i].entries(), keys[mid]) by {
        assert(lc[i] == children[i]);
        assert(all_le(children[i].entries(), keys[i]));
        assert(keys[i] <= keys[mid]);
    }
    assert forall|i: int| 0 <= i < rc.len() implies all_ge(#[trigger] rc[i].entries(), keys[mid]) by {
        let j = mid + i;
        assert(rc[i] == children[j + 1]);
        assert(all_ge(children[j + 1].entries(), keys[j]));
        assert(keys[mid] <= keys[j]);
    }
    lemma_all_le_run(lc, keys[mid]);
    lemma_all_ge_run(rc, keys[mid]);
    lemma_run_ends(lc);
    lemma_run_ends(rc);
}

/// From position `start` on, `out` holds the entries `e`, each value by reference.
pub open spec fn refs_at<V>(out: Seq<(u64, &V)>, start: int, e: Seq<(u64, V)>) -> bool {
    &&& out.len() == start + e.len()
    &&& forall|j: int|
        0 <= j < e.len() ==> (#[trigger] out[start + j]).0 == e[j].0 && *out[start + j].1 == e[j].1
}

impl<V> Node<V> {
    /// Appends the entries of the subtree, left to right, to `out`.
    pub fn collect<'a>(&'a self, out: &mut Vec<(u64, &'a V)>)
        requires
            self.wf(),
        ensures
            forall|j: int| 0 <= j < old(out)@.len() ==> final(out)@[j] == old(out)@[j],
            refs_at(final(out)@, old(out)@.len() as int, self.entries()),
        decreases *self,
    {
        let ghost start = out@.len() as int;
        match self {
            Node::Leaf(leaf) => {
                let mut i: usize = 0;
                while i < leaf.keys.len()
                    invariant
                        leaf.wf(),
                        i <= leaf.keys@.len(),
                        start == old(out)@.len(),
                        forall|j: int| 0 <= j < start ==> out@[j] == old(out)@[j],
                        refs_at(out@, start, leaf.entries().subrange(0, i as int)),
                    decreases leaf.keys@.len() - i,
                {
                    let ghost before = out@;
                    out.push((leaf.keys[i], &leaf.values[i]));
                    proof {
                        let e = leaf.entries().subrange(0, i as int + 1);
                        assert forall|j: int| 0 <= j < e.len() implies (#[trigger] out@[start + j]).0
                            == e[j].0 && *out@[start + j].1 == e[j].1 by {
                            if j < i {
                                assert(out@[start + j] == before[start + j]);
                                assert(e[j] == leaf.entries().subrange(0, i as int)[j]);
                            }
                        }
                    }
                    i = i + 1;
                }
                proof {
                    assert(leaf.entries().subrange(0, i as int) =~= leaf.entries());
                }
            },
            Node::Branch(branch) => {
                let ghost cs = branch.children@;
                let mut i: usize = 0;
                proof {
                    assert(cs.subrange(0, 0) =~= Seq::<Node<V>>::empty());
                    assert(entries_of(Seq::<Node<V>>::empty()) == Seq::<(u64, V)>::empty());
                }
                while i < branch.children.len()
                    invariant
                        cs == branch.children@,
                        *self == Node::Branch(*branch),
                        forall|j: int| 0 <= j < cs.len() ==> (#[trigger] cs[j]).wf(),
                        i <= cs.len(),
                        start == old(out)@.len(),
                        forall|j: int| 0 <= j < start ==> out@[j] == old(out)@[j],
                        refs_at(out@, start, entries_of(cs.subrange(0, i as int))),
                    decreases cs.len() - i,
                {
                    let ghost before = out@;
                    let ghost prev = entries_of(cs.subrange(0, i as int));
                    assert(decreases_to!(*self => self->Branch_0));
                    assert(decreases_to!(*branch => branch.children));
                    assert(decreases_to!(branch.children => branch.children@));
                    assert(decreases_to!(branch.children@ => cs[i as int]));
                    branch.children[i].collect(out);
                    proof {
                        let sub1 = cs.subrange(0, i as int + 1);
                        assert(sub1.drop_last() =~= cs.subrange(0, i as int));
                        assert(sub1.last() == cs[i as int]);
                        let e = entries_of(sub1);
                        assert(e == prev + cs[i as int].entries());
                        let off = start + prev.len();
                        assert forall|j: int| 0 <= j < e.len() implies (#[trigger] out@[start + j]).0
                            == e[j].0 && *out@[start + j].1 == e[j].1 by {
                            if j < prev.len() {
                                assert(out@[start + j] == before[start + j]);
                            } else {
                                let k = j - prev.len();
                                assert(out@[off + k] == out@[start + j]);
                            }
                        }
                    }
                    i = i + 1;
                }
                proof {
                    assert(cs.subrange(0, cs.len() as int) =~= cs);
                }
            },
        }
    }
}

/// An order-statistic B+ tree of `u64` keys: the leaves hold the entries in key order;
/// entries with equal keys are kept, the latest first.
pub struct BTree<V> {
    pub root: Node<V>,
    pub order: usize,
}

impl<V> BTree<V> {
    pub open spec fn wf(&self) -> bool {
        &&& self.root.wf()
        &&& self.root.order() == self.order
        &&& self.order < usize::MAX
    }

    /// The entries of the tree in order.
    pub open spec fn entries(&self) -> Seq<(u64, V)> {
        self.root.entries()
    }

    /// A tree with the default order of ten.
    pub fn default() -> (r: Self)
        ensures
            r.wf(),
            r.order == 10,
            r.entries().len() == 0,
    {
        BTree::new(10)
    }

    /// An empty tree whose nodes are made with room for `order` keys. Orders below two
    /// would leave a full node without a middle to split at.
    pub fn new(order: usize) -> (r: Self)
        requires
            2 <= order < usize::MAX,
        ensures
            r.wf(),
            r.order == order,
            r.entries().len() == 0,
    {
        BTree { root: Node::Leaf(Leaf::new(order)), order }
    }

    /// Inserts the entry in front of the entries with an equal key; a split root gets a
    /// new root above it.
    pub fn insert(&mut self, key: u64, value: V)
        requires
            old(self).wf(),
            old(self).entries().len() < usize::MAX,
        ensures
            final(self).wf(),
            final(self).order == old(self).order,
            final(self).entries() == ins(old(self).entries(), key, value),
            old(self).root is Leaf ==> final(self).root.stored_size() == old(self).root.stored_size()
                + 1,
    {
        let ghost all = ins(old(self).entries(), key, value);
        if let Some((sep, node)) = self.root.insert(key, value) {
            let mut old_root = Node::Leaf(Leaf::new(self.order));
            std::mem::swap(&mut old_root, &mut self.root);
            let mut branch = Branch::new(self.order);
            branch.children.push(old_root);
            branch.children.push(node);
            branch.keys.push(sep);
            proof {
                assert(branch.children@ =~= seq![old_root, node]);
                assert(branch.keys@ =~= seq![sep]);
                lemma_entries_of_append(seq![old_root], seq![node]);
                assert(seq![old_root] + seq![node] =~= seq![old_root, node]);
                lemma_entries_of_one(old_root);
                lemma_entries_of_one(node);
                lemma_keys_of_append(old_root.entries(), node.entries());
                lemma_ins_len(old(self).entries(), key, value);
                assert(entries_of(seq![old_root, node]) == old_root.entries() + node.entries());
                assert(entries_of(branch.children@) == all);
            }
            branch.update_count();
            proof {
                let two = seq![old_root, node];
                assert(two.drop_last() =~= seq![old_root]);
                assert(seq![old_root].drop_last() =~= Seq::<Node<V>>::empty());
                assert(two.last() == node);
                assert(seq![old_root].last() == old_root);
                assert(sum_stored(Seq::<Node<V>>::empty()) == 0);
                assert(sum_stored(seq![old_root]) == old_root.stored_size());
                assert(sum_stored(two) == old_root.stored_size() + node.stored_size());
                if old(self).root is Leaf {
                    lemma_leaf_keys(old_root->Leaf_0);
                    lemma_leaf_keys(node->Leaf_0);
                    lemma_leaf_keys(old(self).root->Leaf_0);
                }
            }
            self.root = Node::Branch(branch);
        } else {
            proof {
                if old(self).root is Leaf {
                    lemma_leaf_keys(self.root->Leaf_0);
                    lemma_leaf_keys(old(self).root->Leaf_0);
                    lemma_ins_len(old(self).entries(), key, value);
                }
            }
        }
    }

    /// Removal is not supported: the tree is left as it is and nothing is returned.
    pub fn remove(&mut self, key: &u64) -> (r: Option<V>)
        ensures
            r is None,
            *final(self) == *old(self),
    {
        None
    }

    /// The value of the first entry with `key` in the leaf the separators route `key` to.
    pub fn find(&self, key: &u64) -> (r: Option<&V>)
        requires
            self.wf(),
        ensures
            match r {
                Some(v) => leaf_find(self.root.route(*key), *key) == Some(*v),
                None => leaf_find(self.root.route(*key), *key) is None,
            },
    {
        self.root.find(key)
    }

    /// The value of the first entry with `key` in the leaf the separators route `key` to,
    /// to be changed in place; the route then finds the value as it was left.
    pub fn find_mut(&mut self, key: &u64) -> (r: Option<&mut V>)
        requires
            old(self).wf(),
        ensures
            final(self).wf(),
            final(self).order == old(self).order,
            leaf_find(old(self).root.route(*key), *key) is None ==> r is None
                && final(self).entries() == old(self).entries(),
            leaf_find(old(self).root.route(*key), *key) is Some ==> r is Some && *r.unwrap()
                == leaf_find(old(self).root.route(*key), *key)->0 && leaf_find(
                final(self).root.route(*key),
                *key,
            ) == Some(*final(r.unwrap())) && set_on_route(
                old(self).root,
                final(self).root,
                *key,
                Some(*final(r.unwrap())),
            ),
    {
        let ghost a = self.root;
        let root = &mut self.root;
        let ghost b = *final(root);
        let r = root.find_mut(key);
        proof {
            if r is Some {
                lemma_set_on_route(a, b, *key, Some(*final(r.unwrap())));
            } else {
                lemma_set_on_route(a, b, *key, None);
            }
            lemma_same_shape(a, b);
        }
        r
    }

    /// The value at position `index`, counted with the entry counts the nodes keep, to be
    /// changed in place; the position then gives the same key with the value as it was
    /// left.
    pub fn at_index_mut(&mut self, index: usize) -> (r: Option<&mut V>)
        requires
            old(self).wf(),
        ensures
            final(self).wf(),
            final(self).order == old(self).order,
            old(self).root.at(index as int) is None ==> r is None
                && final(self).entries() == old(self).entries(),
            old(self).root.at(index as int) matches Some(e) ==> r is Some && *r.unwrap() == e.1
                && final(self).root.at(index as int) == Some((e.0, *final(r.unwrap())))
                && set_at(old(self).root, final(self).root, index as int, Some(*final(r.unwrap()))),
    {
        let ghost a = self.root;
        let root = &mut self.root;
        let ghost b = *final(root);
        let r = root.at_index_mut(index);
        proof {
            if r is Some {
                lemma_set_at(a, b, index as int, Some(*final(r.unwrap())));
            } else {
                lemma_set_at(a, b, index as int, None);
            }
            lemma_same_shape(a, b);
        }
        r
    }

    /// The position of `key` within the leaf the separators route it to.
    pub fn index_of(&self, key: &u64) -> (r: Option<usize>)
        requires
            self.wf(),
        ensures
            r == leaf_index(self.root.route(*key), *key),
    {
        self.root.index_of(key)
    }

    /// The value at position `index`, counted with the entry counts the nodes keep.
    pub fn at_index(&self, index: usize) -> (r: Option<&V>)
        requires
            self.wf(),
        ensures
            match self.root.at(index as int) {
                Some(e) => r == Some(&e.1),
                None => r is None,
            },
    {
        self.root.at_index(index)
    }

    /// Whether the root holds no keys.
    pub fn is_empty(&self) -> (r: bool)
        ensures
            r == (match self.root {
                Node::Leaf(l) => l.keys@.len() == 0,
                Node::Branch(b) => b.keys@.len() == 0,
            }),
    {
        self.root.is_empty()
    }

    /// The entry count kept at the root.
    pub fn size(&self) -> (r: usize)
        requires
            self.wf(),
        ensures
            r == self.root.stored_size(),
    {
        self.root.size()
    }

    /// All entries of the tree, left to right.
    pub fn iter(&self) -> (r: Vec<(u64, &V)>)
        requires
            self.wf(),
        ensures
            refs_at(r@, 0, self.entries()),
    {
        let mut out = Vec::new();
        self.root.collect(&mut out);
        out
    }
}

pub proof fn lemma_seps_of_contains<V>(s: Seq<Node<V>>, i: int, x: u64)
    requires
        0 <= i < s.len(),
        s[i].seps().contains(x),
    ensures
        seps_of(s).contains(x),
    decreases s.len(),
{
    if i < s.len() - 1 {
        assert(s.drop_last()[i] == s[i]);
        lemma_seps_of_contains(s.drop_last(), i, x);
    }
}

/// Lookup law: a key found by the separators' routing is in the tree, with the value of
/// the first entry holding it; a key that is in the tree and is no separator is found.
pub proof fn lemma_find_first<V>(n: Node<V>, k: u64)
    requires
        n.wf(),
    ensures
        leaf_find(n.route(k), k) matches Some(v) ==> {
            &&& key_in(n.entries(), k)
            &&& lb(keys_of(n.entries()), k) < n.entries().len()
            &&& n.entries()[lb(keys_of(n.entries()), k)].0 == k
            &&& v == n.entries()[lb(keys_of(n.entries()), k)].1
        },
        key_in(n.entries(), k) && !n.seps().contains(k) ==> leaf_find(n.route(k), k) is Some,
    decreases n,
{
    match n {
        Node::Leaf(l) => {
            lemma_leaf_keys(l);
            lemma_lb(l.keys@, k);
            let p = lb(l.keys@, k);
            if leaf_find(n.route(k), k) is Some {
                assert(n.entries()[p].0 == k);
            }
            if key_in(n.entries(), k) {
                let i = choose|i: int| 0 <= i < n.entries().len() && n.entries()[i].0 == k;
                assert(l.keys@[i] == k);
                if p < l.keys@.len() {
                    assert(l.keys@[p] <= l.keys@[i]);
                }
            }
        },
        Node::Branch(b) => {
            let keys = b.keys@;
            let cs = b.children@;
            lemma_lb(keys, k);
            let pos = lb(keys, k);
            let child = cs[pos];
            assert(decreases_to!(n => n->Branch_0));
            assert(decreases_to!(b => b.children));
            assert(decreases_to!(b.children => b.children@));
            assert(decreases_to!(b.children@ => child));
            lemma_find_first(child, k);
            lemma_split_run(cs, pos);
            lemma_run_around(keys, cs, pos, k);
            let a = entries_of(cs.subrange(0, pos));
            let c = entries_of(cs.subrange(pos + 1, cs.len() as int));
            let e = child.entries();
            assert(n.entries() == a + e + c);
            lemma_keys_of_append(a + e, c);
            lemma_keys_of_append(a, e);
            let ka = keys_of(a);
            let kc = keys_of(c);
            assert forall|i: int| 0 <= i < ka.len() implies ka[i] < k by {
                assert(ka[i] == a[i].0);
            }
            assert forall|i: int| 0 <= i < kc.len() implies kc[i] >= k by {
                assert(kc[i] == c[i].0);
            }
            lemma_lb_concat(ka, keys_of(e), kc, k);
            lemma_lb_range(keys_of(e), k);
            if leaf_find(n.route(k), k) is Some {
                let j = lb(keys_of(e), k);
                let w = choose|w: int| 0 <= w < e.len() && e[w].0 == k;
                assert((a + e + c)[a.len() + w] == e[w]);
                assert((a + e + c)[a.len() + j] == e[j]);
            }
            if key_in(n.entries(), k) && !n.seps().contains(k) {
                let i = choose|i: int| 0 <= i < n.entries().len() && n.entries()[i].0 == k;
                assert(!keys.to_set().contains(k));
                if pos < keys.len() {
                    assert(keys.to_set().contains(keys[pos]));
                    assert(keys[pos] != k);
                }
                if i < a.len() {
                    assert((a + e + c)[i] == a[i]);
                } else if i >= a.len() + e.len() {
                    assert((a + e + c)[i] == c[i - a.len() - e.len()]);
                    if pos == keys.len() {
                        assert(cs.subrange(pos + 1, cs.len() as int) =~= Seq::<Node<V>>::empty());
                        assert(entries_of(Seq::<Node<V>>::empty()) == Seq::<(u64, V)>::empty());
                    }
                } else {
                    assert((a + e + c)[i] == e[i - a.len()]);
                }
                assert(key_in(e, k));
                if child.seps().contains(k) {
                    lemma_seps_of_contains(cs, pos, k);
                }
            }
        },
    }
}

/// Two sorted runs of keys, the first at most the second, make a sorted run.
pub proof fn lemma_sorted_append(a: Seq<u64>, b: Seq<u64>)
    requires
        sorted(a),
        sorted(b),
        forall|i: int, j: int| 0 <= i < a.len() && 0 <= j < b.len() ==> a[i] <= b[j],
    ensures
        sorted(a + b),
{
    assert forall|i: int, j: int| 0 <= i <= j < (a + b).len() implies (a + b)[i] <= (a + b)[j] by {
        if j < a.len() {
            assert((a + b)[i] == a[i] && (a + b)[j] == a[j]);
        } else if i >= a.len() {
            assert((a + b)[i] == b[i - a.len()] && (a + b)[j] == b[j - a.len()]);
        } else {
            assert((a + b)[i] == a[i] && (a + b)[j] == b[j - a.len()]);
        }
    }
}

/// Order law: the entries of a well-formed tree are in key order.
pub proof fn lemma_entries_sorted<V>(n: Node<V>)
    requires
        n.wf(),
    ensures
        sorted(keys_of(n.entries())),
    decreases n,
{
    match n {
        Node::Leaf(l) => {
            lemma_leaf_keys(l);
        },
        Node::Branch(b) => {
            let cs = b.children@;
            let keys = b.keys@;
            assert forall|j: int| 0 <= j < cs.len() implies sorted(keys_of(#[trigger] cs[j].entries())) by {
                assert(decreases_to!(n => n->Branch_0));
                assert(decreases_to!(b => b.children));
                assert(decreases_to!(b.children => b.children@));
                assert(decreases_to!(b.children@ => cs[j]));
                lemma_entries_sorted(cs[j]);
            }
            lemma_run_sorted(keys, cs, cs.len() as int);
            assert(cs.subrange(0, cs.len() as int) =~= cs);
        },
    }
}

/// The first `j` subtrees of a bounded run hold sorted keys, all at most separator `j - 1`.
pub proof fn lemma_run_sorted<V>(keys: Seq<u64>, cs: Seq<Node<V>>, j: int)
    requires
        cs.len() == keys.len() + 1,
        sorted(keys),
        bounded(keys, cs),
        forall|i: int| 0 <= i < cs.len() ==> sorted(keys_of(#[trigger] cs[i].entries())),
        0 <= j <= cs.len(),
    ensures
        sorted(keys_of(entries_of(cs.subrange(0, j)))),
        0 < j < cs.len() ==> all_le(entries_of(cs.subrange(0, j)), keys[j - 1]),
    decreases j,
{
    let s = cs.subrange(0, j);
    if j == 0 {
        assert(s =~= Seq::<Node<V>>::empty());
        assert(entries_of(Seq::<Node<V>>::empty()) == Seq::<(u64, V)>::empty());
        assert(keys_of(Seq::<(u64, V)>::empty()) =~= Seq::<u64>::empty());
    } else {
        lemma_run_sorted(keys, cs, j - 1);
        let prev = cs.subrange(0, j - 1);
        assert(s.drop_last() =~= prev);
        assert(s.last() == cs[j - 1]);
        let pe = entries_of(prev);
        let ce = cs[j - 1].entries();
        assert(entries_of(s) == pe + ce);
        lemma_keys_of_append(pe, ce);
        if j > 1 {
            let m = j - 2;
            assert(all_ge(cs[m + 1].entries(), keys[m]));
            assert forall|x: int, y: int| 0 <= x < keys_of(pe).len() && 0 <= y < keys_of(ce).len() implies keys_of(pe)[x] <= keys_of(ce)[y] by {
                assert(keys_of(pe)[x] == pe[x].0);
                assert(keys_of(ce)[y] == ce[y].0);
            }
        } else {
            assert(prev =~= Seq::<Node<V>>::empty());
            assert(entries_of(Seq::<Node<V>>::empty()) == Seq::<(u64, V)>::empty());
        }
        lemma_sorted_append(keys_of(pe), keys_of(ce));
        if j < cs.len() {
            let m = j - 1;
            assert(all_le(cs[m].entries(), keys[m]));
            if j > 1 {
                assert(keys[j - 2] <= keys[j - 1]);
            }
            assert forall|x: int| 0 <= x < (pe + ce).len() implies (pe + ce)[x].0 <= keys[j - 1] by {
                if x < pe.len() {
                    assert((pe + ce)[x] == pe[x]);
                } else {
                    assert((pe + ce)[x] == ce[x - pe.len()]);
                }
            }
        }
    }
}

/// Positions in a run of subtrees that keep their real counts.
pub proof fn lemma_run_at<V>(s: Seq<Node<V>>, i: int)
    requires
        forall|j: int| 0 <= j < s.len() ==> (#[trigger] s[j]).stored_size() == s[j].entries().len(),
        forall|j: int, x: int|
            0 <= j < s.len() && 0 <= x < s[j].entries().len() ==> (#[trigger] s[j].at(x)) == Some(
                s[j].entries()[x],
            ),
        0 <= i < entries_of(s).len(),
    ensures
        run_at(s, i) == Some(entries_of(s)[i]),
    decreases s.len(),
{
    let rest = s.subrange(1, s.len() as int);
    if s.len() == 0 {
        assert(entries_of(s) == Seq::<(u64, V)>::empty());
    } else {
        assert(s =~= seq![s[0]] + rest);
        lemma_entries_of_append(seq![s[0]], rest);
        lemma_entries_of_one(s[0]);
        let e0 = s[0].entries();
        assert(entries_of(s) == e0 + entries_of(rest));
        if i < e0.len() {
            assert(s[0].at(i) == Some(e0[i]));
            assert((e0 + entries_of(rest))[i] == e0[i]);
        } else {
            assert forall|j: int| 0 <= j < rest.len() implies (#[trigger] rest[j]).stored_size()
                == rest[j].entries().len() by {
                assert(rest[j] == s[j + 1]);
            }
            assert forall|j: int, x: int|
                0 <= j < rest.len() && 0 <= x < rest[j].entries().len() implies (#[trigger] rest[j].at(
                    x,
                )) == Some(rest[j].entries()[x]) by {
                assert(rest[j] == s[j + 1]);
            }
            lemma_run_at(rest, i - e0.len());
            assert((e0 + entries_of(rest))[i] == entries_of(rest)[i - e0.len()]);
        }
    }
}

/// Position law: when every branch keeps the real entry count of its subtree, the entry
/// at position `i` is the `i`-th entry of the tree.
pub proof fn lemma_at_exact<V>(n: Node<V>, i: int)
    requires
        n.wf(),
        n.exact_sizes(),
        0 <= i < n.entries().len(),
    ensures
        n.at(i) == Some(n.entries()[i]),
    decreases n,
{
    match n {
        Node::Leaf(l) => {
        },
        Node::Branch(b) => {
            let cs = b.children@;
            assert forall|j: int, x: int|
                0 <= j < cs.len() && 0 <= x < cs[j].entries().len() implies (#[trigger] cs[j].at(x))
                == Some(cs[j].entries()[x]) by {
                assert(decreases_to!(n => n->Branch_0));
                assert(decreases_to!(b => b.children));
                assert(decreases_to!(b.children => b.children@));
                assert(decreases_to!(b.children@ => cs[j]));
                lemma_at_exact(cs[j], x);
            }
            assert forall|j: int| 0 <= j < cs.len() implies (#[trigger] cs[j]).stored_size()
                == cs[j].entries().len() by {
                assert(cs[j].exact_sizes());
            }
            lemma_run_at(cs, i);
        },
    }
}

/// A tree whose root is a leaf keeps the real count.
pub proof fn lemma_leaf_exact<V>(n: Node<V>)
    requires
        n is Leaf,
        n.wf(),
    ensures
        n.exact_sizes(),
        n.stored_size() == n.entries().len(),
{
}


/// The same tree but for its values: the same keys, orders and kept counts throughout.
pub open spec fn same_shape<V>(a: Node<V>, b: Node<V>) -> bool
    decreases a,
{
    match a {
        Node::Leaf(x) => match b {
            Node::Leaf(y) => x.keys@ == y.keys@ && x.order == y.order && x.values@.len()
                == y.values@.len(),
            Node::Branch(_) => false,
        },
        Node::Branch(x) => match b {
            Node::Leaf(_) => false,
            Node::Branch(y) => {
                &&& x.keys@ == y.keys@
                &&& x.order == y.order
                &&& x.total == y.total
                &&& x.children@.len() == y.children@.len()
                &&& forall|i: int|
                    0 <= i < x.children@.len() ==> same_shape(
                        #[trigger] x.children@[i],
                        y.children@[i],
                    )
            },
        },
    }
}

/// Entries with the same keys bound the same way.
pub proof fn lemma_bounds_by_keys<V>(e1: Seq<(u64, V)>, e2: Seq<(u64, V)>, k: u64)
    requires
        keys_of(e1) == keys_of(e2),
    ensures
        all_le(e1, k) <==> all_le(e2, k),
        all_ge(e1, k) <==> all_ge(e2, k),
        e1.len() == e2.len(),
{
    assert(keys_of(e1).len() == e1.len());
    assert(keys_of(e2).len() == e2.len());
    assert forall|i: int| 0 <= i < e1.len() implies e1[i].0 == e2[i].0 by {
        assert(keys_of(e1)[i] == e1[i].0);
        assert(keys_of(e2)[i] == e2[i].0);
        assert(keys_of(e1)[i] == keys_of(e2)[i]);
    }
    if all_le(e1, k) {
        assert forall|i: int| 0 <= i < e2.len() implies e2[i].0 <= k by {
            assert(e1[i].0 == e2[i].0);
        }
    }
    if all_le(e2, k) {
        assert forall|i: int| 0 <= i < e1.len() implies e1[i].0 <= k by {
            assert(e1[i].0 == e2[i].0);
        }
    }
    if all_ge(e1, k) {
        assert forall|i: int| 0 <= i < e2.len() implies e2[i].0 >= k by {
            assert(e1[i].0 == e2[i].0);
        }
    }
    if all_ge(e2, k) {
        assert forall|i: int| 0 <= i < e1.len() implies e1[i].0 >= k by {
            assert(e1[i].0 == e2[i].0);
        }
    }
}

/// Runs of subtrees with the same keys, one for one, have the same keys.
pub proof fn lemma_run_keys<V>(s: Seq<Node<V>>, t: Seq<Node<V>>)
    requires
        s.len() == t.len(),
        forall|i: int| 0 <= i < s.len() ==> keys_of((#[trigger] s[i]).entries()) == keys_of(t[i].entries()),
    ensures
        keys_of(entries_of(s)) == keys_of(entries_of(t)),
    decreases s.len(),
{
    if s.len() > 0 {
        assert forall|i: int| 0 <= i < s.drop_last().len() implies keys_of(
            (#[trigger] s.drop_last()[i]).entries(),
        ) == keys_of(t.drop_last()[i].entries()) by {
            assert(s.drop_last()[i] == s[i] && t.drop_last()[i] == t[i]);
        }
        lemma_run_keys(s.drop_last(), t.drop_last());
        lemma_keys_of_append(entries_of(s.drop_last()), s.last().entries());
        lemma_keys_of_append(entries_of(t.drop_last()), t.last().entries());
        assert(s.last() == s[s.len() - 1] && t.last() == t[t.len() - 1]);
    }
}

/// Trees of the same shape have the same keys, order and kept count, and one is well
/// formed when the other is.
pub proof fn lemma_same_shape<V>(a: Node<V>, b: Node<V>)
    requires
        same_shape(a, b),
    ensures
        keys_of(a.entries()) == keys_of(b.entries()),
        a.entries().len() == b.entries().len(),
        a.stored_size() == b.stored_size(),
        a.order() == b.order(),
        a.wf() ==> b.wf(),
    decreases a,
{
    match a {
        Node::Leaf(x) => {
            let y = b->Leaf_0;
            assert(keys_of(x.entries()) =~= x.keys@);
            assert(keys_of(y.entries()) =~= y.keys@);
        },
        Node::Branch(x) => {
            let y = b->Branch_0;
            let cs = x.children@;
            let ds = y.children@;
            assert forall|i: int| 0 <= i < cs.len() implies keys_of((#[trigger] cs[i]).entries())
                == keys_of(ds[i].entries()) && cs[i].entries().len() == ds[i].entries().len() && cs[
                i
            ].order() == ds[i].order() && (cs[i].wf() ==> ds[i].wf()) by {
                assert(decreases_to!(a => a->Branch_0));
                assert(decreases_to!(x => x.children));
                assert(decreases_to!(x.children => x.children@));
                assert(decreases_to!(x.children@ => cs[i]));
                assert(same_shape(cs[i], ds[i]));
                lemma_same_shape(cs[i], ds[i]);
            }
            lemma_run_keys(cs, ds);
            lemma_bounds_by_keys(entries_of(cs), entries_of(ds), 0);
            if a.wf() {
                assert forall|i: int| 0 <= i < x.keys@.len() implies all_le(
                    #[trigger] ds[i].entries(),
                    y.keys@[i],
                ) by {
                    lemma_bounds_by_keys(cs[i].entries(), ds[i].entries(), x.keys@[i]);
                }
                assert forall|i: int| 0 <= i < x.keys@.len() implies all_ge(
                    #[trigger] ds[i + 1].entries(),
                    y.keys@[i],
                ) by {
                    lemma_bounds_by_keys(cs[i + 1].entries(), ds[i + 1].entries(), x.keys@[i]);
                }
                assert forall|i: int| 0 <= i < ds.len() implies {
                    &&& (#[trigger] ds[i]).wf()
                    &&& ds[i].order() == y.order
                    &&& ds[i].entries().len() > 0
                } by {
                    assert(cs[i].wf());
                }
            }
        },
    }
}


/// `b` is `a` with, when `v` is `Some`, the value of the entry that `leaf_find` gives for
/// `k` in the leaf the separators route `k` to set to the value in `v`; nothing else
/// differs.
pub open spec fn set_on_route<V>(a: Node<V>, b: Node<V>, k: u64, v: Option<V>) -> bool
    decreases a,
{
    match a {
        Node::Leaf(x) => match b {
            Node::Leaf(y) => x.keys@ == y.keys@ && x.order == y.order && y.values@ == match (
                leaf_index(x, k),
                v,
            ) {
                (Some(p), Some(w)) => x.values@.update(p as int, w),
                _ => x.values@,
            },
            Node::Branch(_) => false,
        },
        Node::Branch(x) => match b {
            Node::Leaf(_) => false,
            Node::Branch(y) => {
                let p = lb(x.keys@, k);
                &&& x.keys@ == y.keys@
                &&& x.order == y.order
                &&& x.total == y.total
                &&& x.children@.len() == y.children@.len()
                &&& 0 <= p < x.children@.len()
                &&& forall|i: int|
                    0 <= i < x.children@.len() && i != p ==> #[trigger] y.children@[i]
                        == x.children@[i]
                &&& set_on_route(x.children@[p], y.children@[p], k, v)
            },
        },
    }
}

/// Runs of subtrees with the same entries, one for one, have the same entries.
pub proof fn lemma_run_entries<V>(s: Seq<Node<V>>, t: Seq<Node<V>>)
    requires
        s.len() == t.len(),
        forall|i: int| 0 <= i < s.len() ==> (#[trigger] s[i]).entries() == t[i].entries(),
    ensures
        entries_of(s) == entries_of(t),
    decreases s.len(),
{
    if s.len() > 0 {
        assert forall|i: int| 0 <= i < s.drop_last().len() implies (
        #[trigger] s.drop_last()[i]).entries() == t.drop_last()[i].entries() by {
            assert(s.drop_last()[i] == s[i] && t.drop_last()[i] == t[i]);
        }
        lemma_run_entries(s.drop_last(), t.drop_last());
        assert(s.last() == s[s.len() - 1] && t.last() == t[t.len() - 1]);
    }
}

/// Setting a value on the route keeps the shape, the route then finds the new value,
/// and setting nothing keeps every entry.
pub proof fn lemma_set_on_route<V>(a: Node<V>, b: Node<V>, k: u64, v: Option<V>)
    requires
        a.wf(),
        set_on_route(a, b, k, v),
    ensures
        same_shape(a, b),
        b.wf(),
        v is Some && leaf_find(a.route(k), k) is Some ==> leaf_find(b.route(k), k) == v,
        v is None ==> b.entries() == a.entries(),
    decreases a,
{
    match a {
        Node::Leaf(x) => {
            let y = b->Leaf_0;
            assert(lb(y.keys@, k) == lb(x.keys@, k));
        },
        Node::Branch(x) => {
            let y = b->Branch_0;
            let cs = x.children@;
            let ds = y.children@;
            let p = lb(x.keys@, k);
            assert(decreases_to!(a => a->Branch_0));
            assert(decreases_to!(x => x.children));
            assert(decreases_to!(x.children => x.children@));
            assert(decreases_to!(x.children@ => cs[p]));
            assert(cs[p].wf());
            lemma_set_on_route(cs[p], ds[p], k, v);
            assert forall|i: int| 0 <= i < cs.len() implies same_shape(#[trigger] cs[i], ds[i]) by {
                if i != p {
                    assert(ds[i] == cs[i]);
                    lemma_same_shape_refl(cs[i]);
                }
            }
            assert(same_shape(a, b));
            lemma_same_shape(a, b);
            if v is None {
                assert forall|i: int| 0 <= i < cs.len() implies (#[trigger] cs[i]).entries()
                    == ds[i].entries() by {
                    if i != p {
                        assert(ds[i] == cs[i]);
                    }
                }
                lemma_run_entries(cs, ds);
            }
        },
    }
}

/// A tree has its own shape.
pub proof fn lemma_same_shape_refl<V>(a: Node<V>)
    ensures
        same_shape(a, a),
    decreases a,
{
    match a {
        Node::Leaf(_) => {},
        Node::Branch(x) => {
            assert forall|i: int| 0 <= i < x.children@.len() implies same_shape(
                #[trigger] x.children@[i],
                x.children@[i],
            ) by {
                assert(decreases_to!(a => a->Branch_0));
                assert(decreases_to!(x => x.children));
                assert(decreases_to!(x.children => x.children@));
                assert(decreases_to!(x.children@ => x.children@[i]));
                lemma_same_shape_refl(x.children@[i]);
            }
        },
    }
}

impl<V> Leaf<V> {
    /// The value of the first entry with `key`, to be changed in place.
    pub fn find_mut(&mut self, key: &u64) -> (r: Option<&mut V>)
        requires
            old(self).wf(),
        ensures
            final(self).keys == old(self).keys,
            final(self).order == old(self).order,
            leaf_index(*old(self), *key) is None ==> r is None && *final(self) == *old(self),
            leaf_index(*old(self), *key) matches Some(p) ==> r is Some && *r.unwrap() == old(
                self,
            ).values@[p as int] && final(self).values@ == old(self).values@.update(
                p as int,
                *final(r.unwrap()),
            ),
    {
        let pos = lower_bound(&self.keys, *key);
        if pos < self.keys.len() && self.keys[pos] == *key {
            Some(&mut self.values[pos])
        } else {
            None
        }
    }
}

impl<V> Branch<V> {
    /// The value of the first entry with `key` in the leaf the separators route `key` to,
    /// to be changed in place.
    pub fn find_mut(&mut self, key: &u64) -> (r: Option<&mut V>)
        requires
            Node::Branch(*old(self)).wf(),
        ensures
            leaf_find(Node::Branch(*old(self)).route(*key), *key) is None ==> r is None
                && set_on_route(Node::Branch(*old(self)), Node::Branch(*final(self)), *key, None),
            leaf_find(Node::Branch(*old(self)).route(*key), *key) is Some ==> r is Some && *r.unwrap()
                == leaf_find(Node::Branch(*old(self)).route(*key), *key)->0 && set_on_route(
                Node::Branch(*old(self)),
                Node::Branch(*final(self)),
                *key,
                Some(*final(r.unwrap())),
            ),
        decreases *old(self),
    {
        let pos = lower_bound(&self.keys, *key);
        let ghost cs = self.children@;
        proof {
            assert(decreases_to!(*old(self) => old(self).children));
            assert(decreases_to!(old(self).children => cs));
            assert(decreases_to!(cs => cs[pos as int]));
            assert(cs[pos as int].wf());
        }
        let child = &mut self.children[pos];
        child.find_mut(key)
    }
}

impl<V> Node<V> {
    /// The value of the first entry with `key` in the leaf the separators route `key` to,
    /// to be changed in place.
    pub fn find_mut(&mut self, key: &u64) -> (r: Option<&mut V>)
        requires
            old(self).wf(),
        ensures
            leaf_find(old(self).route(*key), *key) is None ==> r is None && set_on_route(
                *old(self),
                *final(self),
                *key,
                None,
            ),
            leaf_find(old(self).route(*key), *key) is Some ==> r is Some && *r.unwrap() == leaf_find(
                old(self).route(*key),
                *key,
            )->0 && set_on_route(*old(self), *final(self), *key, Some(*final(r.unwrap()))),
        decreases *old(self),
    {
        match self {
            Node::Branch(branch) => branch.find_mut(key),
            Node::Leaf(leaf) => leaf.find_mut(key),
        }
    }
}

/// `b` is `a` with, when `v` is `Some`, the value of the entry that `at(idx)` gives set
/// to the value in `v`; nothing else differs.
pub open spec fn set_at<V>(a: Node<V>, b: Node<V>, idx: int, v: Option<V>) -> bool
    decreases a,
{
    match a {
        Node::Leaf(x) => match b {
            Node::Leaf(y) => x.keys@ == y.keys@ && x.order == y.order && y.values@ == if v is Some
                && 0 <= idx < x.values@.len() {
                x.values@.update(idx, v->0)
            } else {
                x.values@
            },
            Node::Branch(_) => false,
        },
        Node::Branch(x) => match b {
            Node::Leaf(_) => false,
            Node::Branch(y) => {
                &&& x.keys@ == y.keys@
                &&& x.order == y.order
                &&& x.total == y.total
                &&& if 0 <= idx < x.total {
                    set_at_run(x.children@, y.children@, idx, v)
                } else {
                    y.children@ == x.children@
                }
            },
        },
    }
}

/// `t` is the run `s` with the entry that `run_at(s, idx)` gives set as `set_at` says.
pub open spec fn set_at_run<V>(s: Seq<Node<V>>, t: Seq<Node<V>>, idx: int, v: Option<V>) -> bool
    decreases s,
{
    if s.len() == 0 {
        t.len() == 0
    } else if idx < s[0].stored_size() {
        &&& t.len() == s.len()
        &&& set_at(s[0], t[0], idx, v)
        &&& t.subrange(1, t.len() as int) == s.subrange(1, s.len() as int)
    } else {
        &&& t.len() == s.len()
        &&& t[0] == s[0]
        &&& set_at_run(
            s.subrange(1, s.len() as int),
            t.subrange(1, t.len() as int),
            idx - s[0].stored_size(),
            v,
        )
    }
}

/// Setting the value at a position keeps the shape and well-formedness, the position then
/// gives the new value with the old key, and setting nothing keeps every entry.
pub proof fn lemma_set_at<V>(a: Node<V>, b: Node<V>, idx: int, v: Option<V>)
    requires
        a.wf(),
        set_at(a, b, idx, v),
    ensures
        same_shape(a, b),
        b.wf(),
        a.at(idx) matches Some(e) ==> (v is Some ==> b.at(idx) == Some((e.0, v->0))),
        v is None ==> b.entries() == a.entries(),
    decreases a,
{
    match a {
        Node::Leaf(x) => {
            let y = b->Leaf_0;
            assert(y.entries().len() == x.entries().len());
            if v is None {
                assert(y.values@ == x.values@);
            }
        },
        Node::Branch(x) => {
            let y = b->Branch_0;
            let cs = x.children@;
            let ds = y.children@;
            if 0 <= idx < x.total {
                assert(decreases_to!(a => a->Branch_0));
                assert(decreases_to!(x => x.children));
                assert(decreases_to!(x.children => x.children@));
                lemma_set_at_run(cs, ds, idx, v);
            } else {
                assert forall|i: int| 0 <= i < cs.len() implies same_shape(#[trigger] cs[i], ds[i])
                    && ds[i].wf() && cs[i].entries() == ds[i].entries() by {
                    lemma_same_shape_refl(cs[i]);
                }
            }
            assert(same_shape(a, b));
            lemma_same_shape(a, b);
            if v is None {
                lemma_run_entries(cs, ds);
            }
        },
    }
}

/// `lemma_set_at` for a run of subtrees.
#[verifier::spinoff_prover]
pub proof fn lemma_set_at_run<V>(s: Seq<Node<V>>, t: Seq<Node<V>>, idx: int, v: Option<V>)
    requires
        forall|i: int| 0 <= i < s.len() ==> (#[trigger] s[i]).wf(),
        set_at_run(s, t, idx, v),
    ensures
        t.len() == s.len(),
        forall|i: int|
            0 <= i < s.len() ==> same_shape(#[trigger] s[i], t[i]) && t[i].wf() && (v is None
                ==> s[i].entries() == t[i].entries()),
        run_at(s, idx) matches Some(e) ==> (v is Some ==> run_at(t, idx) == Some((e.0, v->0))),
    decreases s,
{
    if s.len() > 0 {
        let s1 = s.subrange(1, s.len() as int);
        let t1 = t.subrange(1, t.len() as int);
        assert(decreases_to!(s => s[0]));
        assert(s[0].wf());
        if idx < s[0].stored_size() {
            lemma_set_at(s[0], t[0], idx, v);
            lemma_same_shape(s[0], t[0]);
            assert forall|i: int| 0 <= i < s.len() implies same_shape(#[trigger] s[i], t[i])
                && t[i].wf() && (v is None ==> s[i].entries() == t[i].entries()) by {
                if i > 0 {
                    assert(t[i] == t1[i - 1] && s[i] == s1[i - 1]);
                    lemma_same_shape_refl(s[i]);
                }
            }
        } else {
            assert forall|i: int| 0 <= i < s1.len() implies (#[trigger] s1[i]).wf() by {
                assert(s1[i] == s[i + 1]);
            }
            lemma_set_at_run(s1, t1, idx - s[0].stored_size(), v);
            assert forall|i: int| 0 <= i < s.len() implies same_shape(#[trigger] s[i], t[i])
                && t[i].wf() && (v is None ==> s[i].entries() == t[i].entries()) by {
                if i > 0 {
                    assert(t[i] == t1[i - 1] && s[i] == s1[i - 1]);
                } else {
                    lemma_same_shape_refl(s[0]);
                }
            }
        }
    }
}

impl<V> Node<V> {
    /// The value at position `index`, counted with the entry counts the nodes keep, to be
    /// changed in place.
    pub fn at_index_mut(&mut self, index: usize) -> (r: Option<&mut V>)
        requires
            old(self).wf(),
        ensures
            old(self).at(index as int) is None ==> r is None && set_at(
                *old(self),
                *final(self),
                index as int,
                None,
            ),
            old(self).at(index as int) matches Some(e) ==> r is Some && *r.unwrap() == e.1
                && set_at(*old(self), *final(self), index as int, Some(*final(r.unwrap()))),
        decreases *old(self),
    {
        match self {
            Node::Leaf(leaf) => leaf.at_index_mut(index),
            Node::Branch(branch) => branch.at_index_mut(index),
        }
    }
}

impl<V> Leaf<V> {
    /// The value at position `index`, to be changed in place.
    pub fn at_index_mut(&mut self, index: usize) -> (r: Option<&mut V>)
        requires
            old(self).wf(),
        ensures
            final(self).keys == old(self).keys,
            final(self).order == old(self).order,
            index >= old(self).values@.len() ==> r is None && *final(self) == *old(self),
            index < old(self).values@.len() ==> r is Some && *r.unwrap() == old(self).values@[index as int]
                && final(self).values@ == old(self).values@.update(index as int, *final(r.unwrap())),
    {
        if index < self.values.len() {
            Some(&mut self.values[index])
        } else {
            None
        }
    }
}

impl<V> Branch<V> {
    /// The value at position `index`, counted with the entry counts the nodes keep, to be
    /// changed in place.
    pub fn at_index_mut(&mut self, index: usize) -> (r: Option<&mut V>)
        requires
            Node::Branch(*old(self)).wf(),
        ensures
            Node::Branch(*old(self)).at(index as int) is None ==> r is None && set_at(
                Node::Branch(*old(self)),
                Node::Branch(*final(self)),
                index as int,
                None,
            ),
            Node::Branch(*old(self)).at(index as int) matches Some(e) ==> r is Some && *r.unwrap()
                == e.1 && set_at(
                Node::Branch(*old(self)),
                Node::Branch(*final(self)),
                index as int,
                Some(*final(r.unwrap())),
            ),
        decreases *old(self),
    {
        if index >= self.total {
            return None;
        }
        let ghost cs = self.children@;
        let mut current_index = index;
        let mut i: usize = 0;
        assert(cs.subrange(0, cs.len() as int) =~= cs);
        assert forall|t: Seq<Node<V>>, v: Option<V>|
            t.len() == cs.len() && t.subrange(0, 0) == cs.subrange(0, 0) implies #[trigger] set_at_run(
            cs,
            t,
            index as int,
            v,
        ) == set_at_run(cs.subrange(0, cs.len() as int), t.subrange(0, cs.len() as int), index as int, v)
            by {
            assert(t.subrange(0, t.len() as int) =~= t);
        }
        while i < self.children.len()
            invariant
                cs == self.children@,
                *self == *old(self),
                index < self.total,
                forall|j: int| 0 <= j < cs.len() ==> (#[trigger] cs[j]).wf(),
                i <= cs.len(),
                run_at(cs, index as int) == run_at(
                    cs.subrange(i as int, cs.len() as int),
                    current_index as int,
                ),
                forall|t: Seq<Node<V>>, v: Option<V>|
                    t.len() == cs.len() && t.subrange(0, i as int) == cs.subrange(0, i as int)
                        ==> (#[trigger] set_at_run(cs, t, index as int, v) == set_at_run(
                        cs.subrange(i as int, cs.len() as int),
                        t.subrange(i as int, cs.len() as int),
                        current_index as int,
                        v,
                    )),
            decreases cs.len() - i,
        {
            let size = self.children[i].size();
            let ghost u = cs.subrange(i as int, cs.len() as int);
            proof {
                assert(u[0] == cs[i as int]);
                assert(u.subrange(1, u.len() as int) =~= cs.subrange(i as int + 1, cs.len() as int));
            }
            if current_index < size {
                proof {
                    assert(run_at(u, current_index as int) == cs[i as int].at(current_index as int));
                    assert(decreases_to!(*old(self) => old(self).children));
                    assert(decreases_to!(old(self).children => cs));
                    assert(decreases_to!(cs => cs[i as int]));
                }
                let child = &mut self.children[i];
                let ghost c2 = *final(child);
                let r = child.at_index_mut(current_index);
                proof {
                    let t = cs.update(i as int, c2);
                    assert(t.subrange(0, i as int) =~= cs.subrange(0, i as int));
                    let w = t.subrange(i as int, cs.len() as int);
                    assert(w[0] == c2);
                    assert(w.subrange(1, w.len() as int) =~= u.subrange(1, u.len() as int));
                    assert(set_at_run(cs, t, index as int, None) == set_at_run(
                        u,
                        w,
                        current_index as int,
                        None,
                    ));
                    if r is Some {
                        assert(set_at_run(cs, t, index as int, Some(*final(r.unwrap())))
                            == set_at_run(u, w, current_index as int, Some(*final(r.unwrap()))));
                    }
                }
                return r;
            }
            proof {
                assert forall|t: Seq<Node<V>>, v: Option<V>|
                    t.len() == cs.len() && t.subrange(0, i as int + 1) == cs.subrange(
                        0,
                        i as int + 1,
                    ) implies #[trigger] set_at_run(cs, t, index as int, v) == set_at_run(
                    cs.subrange(i as int + 1, cs.len() as int),
                    t.subrange(i as int + 1, cs.len() as int),
                    current_index - size,
                    v,
                ) by {
                    assert(t.subrange(0, i as int) =~= t.subrange(0, i as int + 1).subrange(
                        0,
                        i as int,
                    ));
                    assert(cs.subrange(0, i as int) =~= cs.subrange(0, i as int + 1).subrange(
                        0,
                        i as int,
                    ));
                    let w = t.subrange(i as int, cs.len() as int);
                    assert(w[0] == t.subrange(0, i as int + 1)[i as int]);
                    assert(w[0] == u[0]);
                    assert(w.subrange(1, w.len() as int) =~= t.subrange(
                        i as int + 1,
                        cs.len() as int,
                    ));
                }
            }
            current_index = current_index - size;
            i = i + 1;
        }
        proof {
            let u = cs.subrange(i as int, cs.len() as int);
            assert(u.len() == 0);
            assert(set_at_run(cs, cs, index as int, None));
        }
        None
    }
}

/// The entries that inserting the pairs one after the other into `e` leaves.
pub open spec fn ins_all<V>(e: Seq<(u64, V)>, kvs: Seq<(u64, V)>) -> Seq<(u64, V)>
    decreases kvs.len(),
{
    if kvs.len() == 0 {
        e
    } else {
        ins(ins_all(e, kvs.drop_last()), kvs.last().0, kvs.last().1)
    }
}

/// Iteration law: after inserting pairs one after the other into an empty tree, the entries
/// come out with their keys in increasing order, and hold each inserted key as often as it
/// was inserted, nothing else; distinct keys thus come out once each, sorted.
pub proof fn lemma_inserted_keys_sorted<V>(kvs: Seq<(u64, V)>)
    ensures
        sorted(keys_of(ins_all(Seq::empty(), kvs))),
        keys_of(ins_all(Seq::empty(), kvs)).to_multiset() == keys_of(kvs).to_multiset(),
    decreases kvs.len(),
{
    if kvs.len() > 0 {
        let prev = ins_all(Seq::<(u64, V)>::empty(), kvs.drop_last());
        lemma_inserted_keys_sorted(kvs.drop_last());
        let (k, v) = kvs.last();
        let p = lb(keys_of(prev), k);
        lemma_lb(keys_of(prev), k);
        lemma_sorted_insert(keys_of(prev), k);
        assert(keys_of(prev.insert(p, (k, v))) =~= keys_of(prev).insert(p, k));
        vstd::seq_lib::to_multiset_insert(keys_of(prev), p, k);
        assert(keys_of(kvs) =~= keys_of(kvs.drop_last()).push(k));
        keys_of(kvs.drop_last()).to_multiset_ensures();
        assert(ins_all(Seq::<(u64, V)>::empty(), kvs) == prev.insert(p, (k, v)));
        assert(keys_of(ins_all(Seq::<(u64, V)>::empty(), kvs)).to_multiset() == keys_of(
            prev,
        ).to_multiset().insert(k));
        assert(keys_of(kvs).to_multiset() == keys_of(kvs.drop_last()).to_multiset().insert(k));
    } else {
        assert(kvs =~= Seq::<(u64, V)>::empty());
    }
}

/// Iteration law for distinct keys: after inserting pairs with distinct keys, in any order,
/// one after the other into an empty tree, the keys come out in strictly increasing order,
/// each inserted key once and no other.
pub proof fn lemma_distinct_keys_come_out_once<V>(kvs: Seq<(u64, V)>)
    requires
        keys_of(kvs).no_duplicates(),
    ensures
        forall|i: int, j: int|
            0 <= i < j < keys_of(ins_all(Seq::empty(), kvs)).len() ==> keys_of(
                ins_all(Seq::empty(), kvs),
            )[i] < keys_of(ins_all(Seq::empty(), kvs))[j],
        forall|k: u64|
            keys_of(ins_all(Seq::empty(), kvs)).contains(k) <==> keys_of(kvs).contains(k),
        keys_of(ins_all(Seq::empty(), kvs)).len() == kvs.len(),
{
    let out = keys_of(ins_all(Seq::<(u64, V)>::empty(), kvs));
    let inn = keys_of(kvs);
    lemma_inserted_keys_sorted(kvs);
    inn.lemma_multiset_has_no_duplicates();
    out.lemma_multiset_has_no_duplicates_conv();
    out.to_multiset_ensures();
    inn.to_multiset_ensures();
    assert forall|i: int, j: int| 0 <= i < j < out.len() implies out[i] < out[j] by {
        assert(out[i] <= out[j]);
        assert(out[i] != out[j]);
    }
    assert forall|k: u64| out.contains(k) <==> inn.contains(k) by {
        assert(out.to_multiset().count(k) == inn.to_multiset().count(k));
    }
    assert(out.len() == out.to_multiset().len());
    assert(inn.len() == inn.to_multiset().len());
    assert(inn.len() == kvs.len());
}

} // verus!
