use crate::change_btree::{lemma_zip_insert, lemma_zip_split, zip};
use crate::sorted::{lb, lemma_lb, lemma_sorted_insert, lemma_sorted_parts, lower_bound, sorted};
use vstd::prelude::*;

verus! {

broadcast use vstd::seq::axiom_seq_subrange_decreases;

/// A leaf: sorted keys with their values, made with room for `order` entries.
pub struct Leaf<V> {
    pub values: Vec<V>,
    pub keys: Vec<u64>,
    pub order: usize,
}

/// An inner node. Inserting into it only counts the entry: `count` is the number of
/// insertions it has taken.
pub struct Branch<V> {
    pub keys: Vec<u64>,
    pub children: Vec<Node<V>>,
    pub count: usize,
    pub order: usize,
}

pub enum Node<V> {
    Leaf(Leaf<V>),
    Branch(Branch<V>),
}

impl<V> Leaf<V> {
    /// The key-value entries of the leaf, in order.
    pub open spec fn entries(&self) -> Seq<(u64, V)> {
        zip(self.keys@, self.values@)
    }

    /// Keys and values pair up, the keys are sorted and no more than `order` are held.
    /// Orders below two leave a full leaf without a middle to split at.
    pub open spec fn wf(&self) -> bool {
        &&& self.keys@.len() == self.values@.len()
        &&& self.keys@.len() <= self.order
        &&& self.order >= 2
        &&& sorted(self.keys@)
    }

    pub fn new(order: usize) -> (r: Self)
        ensures
            r.keys@.len() == 0,
            r.values@.len() == 0,
            r.order == order,
    {
        Leaf { values: Vec::with_capacity(order), keys: Vec::with_capacity(order), order }
    }

    /// Inserts the entry in front of the entries with an equal key. A full leaf is split
    /// first: its upper half moves into a new leaf, which is returned.
    pub fn insert(&mut self, key: u64, value: V) -> (r: Option<Node<V>>)
        requires
            old(self).wf(),
        ensures
            final(self).order == old(self).order,
            r is None <==> old(self).keys@.len() < old(self).order,
            match r {
                None => final(self).wf() && final(self).entries() == old(self).entries().insert(
                    lb(old(self).keys@, key),
                    (key, value),
                ),
                Some(n) => n matches Node::Leaf(right) && halves(
                    *final(self),
                    right,
                    old(self).entries().insert(lb(old(self).keys@, key), (key, value)),
                ),
            },
    {
        let pos = lower_bound(&self.keys, key);
        if self.keys.len() == self.order {
            Some(Node::new_leaf(self.insert_and_split(pos, key, value)))
        } else {
            proof {
                lemma_sorted_insert(self.keys@, key);
            }
            self.keys.insert(pos, key);
            self.values.insert(pos, value);
            proof {
                lemma_zip_insert(old(self).keys@, old(self).values@, pos as int, key, value);
            }
            None
        }
    }

    /// Moves the upper half of a full leaf into a new leaf and inserts the entry at `pos`
    /// into the half it falls in; returns the new leaf.
    #[verifier::rlimit(40)]
    pub fn insert_and_split(&mut self, pos: usize, key: u64, value: V) -> (r: Leaf<V>)
        requires
            old(self).wf(),
            old(self).keys@.len() == old(self).order,
            pos == lb(old(self).keys@, key),
        ensures
            final(self).order == old(self).order,
            halves(*final(self), r, old(self).entries().insert(pos as int, (key, value))),
    {
        let ghost ks = old(self).keys@.insert(pos as int, key);
        proof {
            lemma_sorted_insert(old(self).keys@, key);
            lemma_lb(old(self).keys@, key);
        }
        let mid = self.keys.len() / 2;
        let mut new_leaf = Leaf::new(self.order);
        new_leaf.keys = self.keys.split_off(mid);
        new_leaf.values = self.values.split_off(mid);
        if pos < mid {
            self.keys.insert(pos, key);
            self.values.insert(pos, value);
        } else {
            new_leaf.keys.insert(pos - mid, key);
            new_leaf.values.insert(pos - mid, value);
        }
        proof {
            let vs = old(self).values@.insert(pos as int, value);
            let cut: int = if pos < mid { mid as int + 1 } else { mid as int };
            assert(self.keys@ =~= ks.subrange(0, cut));
            assert(new_leaf.keys@ =~= ks.subrange(cut, ks.len() as int));
            assert(self.values@ =~= vs.subrange(0, cut));
            assert(new_leaf.values@ =~= vs.subrange(cut, vs.len() as int));
            lemma_sorted_parts(ks, cut);
            lemma_zip_insert(old(self).keys@, old(self).values@, pos as int, key, value);
            lemma_zip_split(ks, vs, cut);
        }
        new_leaf
    }

    /// The smallest key of the leaf.
    pub fn min_key(&self) -> (r: Option<&u64>)
        ensures
            r == (if self.keys@.len() == 0 { None } else { Some(&self.keys@[0]) }),
    {
        if self.keys.len() == 0 {
            None
        } else {
            Some(&self.keys[0])
        }
    }

    /// The largest key of the leaf.
    pub fn max_key(&self) -> (r: Option<&u64>)
        ensures
            r == (if self.keys@.len() == 0 {
                None
            } else {
                Some(&self.keys@[self.keys@.len() - 1])
            }),
    {
        if self.keys.len() == 0 {
            None
        } else {
            Some(&self.keys[self.keys.len() - 1])
        }
    }

    /// The number of entries in the leaf.
    pub fn size(&self) -> (r: usize)
        ensures
            r == self.values@.len(),
    {
        self.values.len()
    }
}

/// `left` and `right` are well-formed leaves of one order that hold `all` between them,
/// each at least one entry.
pub open spec fn halves<V>(left: Leaf<V>, right: Leaf<V>, all: Seq<(u64, V)>) -> bool {
    &&& left.wf()
    &&& right.wf()
    &&& right.order == left.order
    &&& left.entries() + right.entries() == all
    &&& left.entries().len() >= 1
    &&& right.entries().len() >= 1
}

/// `n` is the leaf `l` after inserting `key` and `value` into it, and `r` what the
/// insertion returned: nothing, or the upper half of a split.
pub open spec fn leaf_inserted<V>(l: Leaf<V>, n: Node<V>, r: Option<Node<V>>, key: u64, value: V) -> bool {
    let all = l.entries().insert(lb(l.keys@, key), (key, value));
    match n {
        Node::Leaf(l2) => {
            &&& l2.order == l.order
            &&& (r is None <==> l.keys@.len() < l.order)
            &&& match r {
                None => l2.wf() && l2.entries() == all,
                Some(Node::Leaf(right)) => halves(l2, right, all),
                Some(Node::Branch(_)) => false,
            }
        },
        Node::Branch(_) => false,
    }
}

/// `n` is the branch `b` with one more insertion counted.
pub open spec fn counted_one<V>(b: Branch<V>, n: Node<V>) -> bool {
    match n {
        Node::Branch(b2) => {
            &&& b2.count == b.count + 1
            &&& b2.keys == b.keys
            &&& b2.children == b.children
            &&& b2.order == b.order
        },
        Node::Leaf(_) => false,
    }
}

/// `n` is a branch with no keys and a count of zero over two leaves that are the halves
/// of `all`.
pub open spec fn split_root<V>(n: Node<V>, all: Seq<(u64, V)>) -> bool {
    match n {
        Node::Branch(b) => {
            &&& b.keys@.len() == 0
            &&& b.count == 0
            &&& b.children@.len() == 2
            &&& match (b.children@[0], b.children@[1]) {
                (Node::Leaf(left), Node::Leaf(right)) => halves(left, right, all),
                _ => false,
            }
        },
        Node::Leaf(_) => false,
    }
}

/// The smallest key of a node: that of its first leaf, following first children.
pub open spec fn first_key<V>(n: Node<V>) -> Option<u64>
    decreases n,
{
    match n {
        Node::Leaf(l) => if l.keys@.len() == 0 {
            None
        } else {
            Some(l.keys@[0])
        },
        Node::Branch(b) => if b.children@.len() == 0 {
            None
        } else {
            first_key(b.children@[0])
        },
    }
}

/// The largest key of a node: that of its last leaf, following last children.
pub open spec fn last_key<V>(n: Node<V>) -> Option<u64>
    decreases n,
{
    match n {
        Node::Leaf(l) => if l.keys@.len() == 0 {
            None
        } else {
            Some(l.keys@[l.keys@.len() - 1])
        },
        Node::Branch(b) => if b.children@.len() == 0 {
            None
        } else {
            last_key(b.children@[b.children@.len() - 1])
        },
    }
}

impl<V> Branch<V> {
    /// An empty branch made with room for `order` keys.
    pub fn new(order: usize) -> (r: Self)
        requires
            order < usize::MAX,
        ensures
            r.keys@.len() == 0,
            r.children@.len() == 0,
            r.count == 0,
            r.order == order,
    {
        Branch {
            keys: Vec::with_capacity(order),
            children: Vec::with_capacity(order + 1),
            count: 0,
            order,
        }
    }

    /// Counts one more entry; the entry itself is not stored and nothing splits.
    pub fn insert(&mut self, key: u64, value: V) -> (r: Option<Node<V>>)
        requires
            old(self).count < usize::MAX,
        ensures
            r is None,
            final(self).count == old(self).count + 1,
            final(self).keys == old(self).keys,
            final(self).children == old(self).children,
            final(self).order == old(self).order,
    {
        self.count = self.count + 1;
        None
    }

    /// The smallest key under the first child.
    pub fn min_key(&self) -> (r: Option<&u64>)
        ensures
            r == (if self.children@.len() == 0 {
                None::<&u64>
            } else {
                match first_key(self.children@[0]) {
                    Some(k) => Some(&k),
                    None => None,
                }
            }),
        decreases *self,
    {
        if self.children.len() == 0 {
            None
        } else {
            assert(decreases_to!(*self => self.children));
            assert(decreases_to!(self.children => self.children@));
            assert(decreases_to!(self.children@ => self.children@[0]));
            self.children[0].min_key()
        }
    }

    /// The largest key under the last child.
    pub fn max_key(&self) -> (r: Option<&u64>)
        ensures
            r == (if self.children@.len() == 0 {
                None::<&u64>
            } else {
                match last_key(self.children@[self.children@.len() - 1]) {
                    Some(k) => Some(&k),
                    None => None,
                }
            }),
        decreases *self,
    {
        if self.children.len() == 0 {
            None
        } else {
            let n = self.children.len() - 1;
            assert(decreases_to!(*self => self.children));
            assert(decreases_to!(self.children => self.children@));
            assert(decreases_to!(self.children@ => self.children@[n as int]));
            self.children[n].max_key()
        }
    }

    /// The number of insertions counted.
    pub fn size(&self) -> (r: usize)
        ensures
            r == self.count,
    {
        self.count
    }
}

impl<V> Node<V> {
    pub fn new_leaf(leaf: Leaf<V>) -> (r: Self)
        ensures
            r == Node::Leaf(leaf),
    {
        Node::Leaf(leaf)
    }

    pub fn new_branch(branch: Branch<V>) -> (r: Self)
        ensures
            r == Node::Branch(branch),
    {
        Node::Branch(branch)
    }

    /// Inserts into a leaf, or counts the entry in a branch.
    pub fn insert(&mut self, key: u64, value: V) -> (r: Option<Node<V>>)
        requires
            (*old(self)) matches Node::Leaf(l) ==> l.wf(),
            (*old(self)) matches Node::Branch(b) ==> b.count < usize::MAX,
        ensures
            match *old(self) {
                Node::Leaf(l) => leaf_inserted(l, *final(self), r, key, value),
                Node::Branch(b) => r is None && counted_one(b, *final(self)),
            },
    {
        match self {
            Node::Leaf(leaf) => leaf.insert(key, value),
            Node::Branch(branch) => branch.insert(key, value),
        }
    }

    /// The smallest key of the node.
    pub fn min_key(&self) -> (r: Option<&u64>)
        ensures
            r == match first_key(*self) {
                Some(k) => Some(&k),
                None => None,
            },
        decreases *self,
    {
        match self {
            Node::Leaf(leaf) => leaf.min_key(),
            Node::Branch(branch) => branch.min_key(),
        }
    }

    /// The largest key of the node.
    pub fn max_key(&self) -> (r: Option<&u64>)
        ensures
            r == match last_key(*self) {
                Some(k) => Some(&k),
                None => None,
            },
        decreases *self,
    {
        match self {
            Node::Leaf(leaf) => leaf.max_key(),
            Node::Branch(branch) => branch.max_key(),
        }
    }

    /// The entries of a leaf, or the insertions counted by a branch.
    pub fn size(&self) -> (r: usize)
        ensures
            r == match *self {
                Node::Leaf(l) => l.values@.len(),
                Node::Branch(b) => b.count as nat,
            },
    {
        match self {
            Node::Leaf(leaf) => leaf.size(),
            Node::Branch(branch) => branch.size(),
        }
    }

    pub fn is_leaf(&self) -> (r: bool)
        ensures
            r == (*self is Leaf),
    {
        matches!(self, Node::Leaf(_))
    }

    pub fn is_branch(&self) -> (r: bool)
        ensures
            r == (*self is Branch),
    {
        matches!(self, Node::Branch(_))
    }

    /// Whether the node holds no key.
    pub fn is_empty(&self) -> (r: bool)
        ensures
            r == match *self {
                Node::Leaf(l) => l.keys@.len() == 0,
                Node::Branch(b) => b.keys@.len() == 0,
            },
    {
        match self {
            Node::Leaf(leaf) => leaf.keys.len() == 0,
            Node::Branch(branch) => branch.keys.len() == 0,
        }
    }
}

/// A B-tree of `u64` keys whose root is a leaf until the leaf first splits; from then on
/// the root is a branch over the two halves, which only counts further insertions.
pub struct BTree<V> {
    pub root: Node<V>,
    pub order: usize,
}

impl<V> BTree<V> {
    pub open spec fn wf(&self) -> bool {
        &&& self.order < usize::MAX
        &&& match self.root {
            Node::Leaf(l) => l.wf() && l.order == self.order,
            Node::Branch(b) => true,
        }
    }

    /// A tree with the default order of ten.
    pub fn default() -> (r: Self)
        ensures
            r.wf(),
            r.order == 10,
            r.root matches Node::Leaf(l) && l.keys@.len() == 0 && l.values@.len() == 0,
    {
        BTree::new(10)
    }

    /// An empty tree whose nodes are made with room for `order` keys.
    pub fn new(order: usize) -> (r: Self)
        requires
            2 <= order < usize::MAX,
        ensures
            r.wf(),
            r.order == order,
            r.root matches Node::Leaf(l) && l.keys@.len() == 0 && l.values@.len() == 0,
    {
        BTree { root: Node::Leaf(Leaf::new(order)), order }
    }

    /// Inserts the entry. A leaf root inserts it, and when full splits in two under a new
    /// branch root with no keys and a count of zero; a branch root only counts it.
    pub fn insert(&mut self, key: u64, value: V)
        requires
            old(self).wf(),
            old(self).root matches Node::Branch(b) ==> b.count < usize::MAX,
        ensures
            final(self).wf(),
            final(self).order == old(self).order,
            match old(self).root {
                Node::Leaf(l) => if l.keys@.len() < l.order {
                    final(self).root matches Node::Leaf(l2) && l2.entries() == l.entries().insert(
                        lb(l.keys@, key),
                        (key, value),
                    )
                } else {
                    split_root(final(self).root, l.entries().insert(lb(l.keys@, key), (key, value)))
                },
                Node::Branch(b) => counted_one(b, final(self).root),
            },
    {
        if let Some(node) = self.root.insert(key, value) {
            let mut old_root = Node::Leaf(Leaf::new(self.order));
            std::mem::swap(&mut old_root, &mut self.root);
            let mut new_root = Branch::new(self.order);
            new_root.children.push(old_root);
            new_root.children.push(node);
            assert(new_root.children@ =~= seq![old_root, node]);
            self.root = Node::new_branch(new_root);
        }
    }

    /// Removal is not supported: the tree is left as it is and nothing is returned.
    pub fn remove(&mut self, key: &u64) -> (r: Option<V>)
        ensures
            r is None,
            *final(self) == *old(self),
    {
        None
    }

    /// Lookup is not supported: nothing is found.
    pub fn find(&self, key: &u64) -> (r: Option<&V>)
        ensures
            r is None,
    {
        None
    }

    /// Whether the root holds no key.
    pub fn is_empty(&self) -> (r: bool)
        ensures
            r == match self.root {
                Node::Leaf(l) => l.keys@.len() == 0,
                Node::Branch(b) => b.keys@.len() == 0,
            },
    {
        self.root.is_empty()
    }

    /// The entries of a leaf root, or the insertions counted by a branch root.
    pub fn size(&self) -> (r: usize)
        ensures
            r == match self.root {
                Node::Leaf(l) => l.values@.len(),
                Node::Branch(b) => b.count as nat,
            },
    {
        self.root.size()
    }
}

} // verus!
