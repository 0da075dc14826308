use crate::index_map::{mapped, step, IndexMap, IndexMapper, IndexRef};
use std::collections::{HashMap, HashSet};
use vstd::prelude::*;

verus! {

broadcast use vstd::seq::axiom_seq_subrange_decreases;

/// A leaf: values in order, made with room for `order` of them.
pub struct Leaf {
    pub values: Vec<u64>,
    pub order: usize,
}

/// An inner node over `children`; `counts[i]` is the number of values in the first
/// `i + 1` children.
pub struct Branch {
    pub children: Vec<Node>,
    pub counts: Vec<usize>,
    pub order: usize,
}

pub enum Node {
    Branch(Branch),
    Leaf(Leaf),
}

impl Node {
    /// The values under the node, leaf after leaf.
    pub open spec fn values(&self) -> Seq<u64>
        decreases self,
    {
        match self {
            Node::Leaf(l) => l.values@,
            Node::Branch(b) => values_of(b.children@),
        }
    }

    pub open spec fn order(&self) -> usize {
        match self {
            Node::Leaf(l) => l.order,
            Node::Branch(b) => b.order,
        }
    }

    /// Leaves within their room; branches with between one and `order` children of the
    /// same order, all well formed, and counts that are the running totals of their values.
    pub open spec fn wf(&self) -> bool
        decreases self,
    {
        match self {
            Node::Leaf(l) => l.values@.len() <= l.order && l.order >= 2,
            Node::Branch(b) => {
                &&& b.order >= 2
                &&& 1 <= b.children@.len() <= b.order
                &&& values_of(b.children@).len() <= usize::MAX
                &&& b.counts@ == running(b.children@)
                &&& forall|i: int|
                    0 <= i < b.children@.len() ==> (#[trigger] b.children@[i]).wf()
                        && b.children@[i].order() == b.order
            },
        }
    }
}

/// The values under the nodes, one node after the other.
pub open spec fn values_of(s: Seq<Node>) -> Seq<u64>
    decreases s,
{
    if s.len() == 0 {
        Seq::empty()
    } else {
        values_of(s.drop_last()) + s.last().values()
    }
}

/// The running totals of the numbers of values of the nodes.
pub open spec fn running(s: Seq<Node>) -> Seq<usize> {
    Seq::new(s.len(), |i: int| values_of(s.take(i + 1)).len() as usize)
}

pub proof fn lemma_values_of_append(a: Seq<Node>, b: Seq<Node>)
    ensures
        values_of(a + b) == values_of(a) + values_of(b),
    decreases b.len(),
{
    if b.len() == 0 {
        assert(a + b =~= a);
        assert(values_of(a) + values_of(b) =~= values_of(a));
    } else {
        lemma_values_of_append(a, b.drop_last());
        assert((a + b).drop_last() =~= a + b.drop_last());
        assert((a + b).last() == b.last());
        assert(values_of(a + b) =~= values_of(a) + values_of(b));
    }
}

pub proof fn lemma_values_of_one(n: Node)
    ensures
        values_of(seq![n]) == n.values(),
{
    assert(seq![n].drop_last() =~= Seq::<Node>::empty());
    assert(values_of(Seq::<Node>::empty()) == Seq::<u64>::empty());
    assert(values_of(seq![n]) =~= n.values());
}

/// The values of a prefix grow with the prefix.
pub proof fn lemma_values_prefix(s: Seq<Node>, i: int, j: int)
    requires
        0 <= i <= j <= s.len(),
    ensures
        values_of(s.take(i)).len() <= values_of(s.take(j)).len(),
        values_of(s.take(j)) == values_of(s.take(i)) + values_of(s.subrange(i, j)),
{
    assert(s.take(j) =~= s.take(i) + s.subrange(i, j));
    lemma_values_of_append(s.take(i), s.subrange(i, j));
}

/// The values of the child at `p` sit between the running totals before and at `p`.
pub proof fn lemma_values_around(s: Seq<Node>, p: int)
    requires
        0 <= p < s.len(),
    ensures
        values_of(s) == values_of(s.take(p)) + s[p].values() + values_of(s.skip(p + 1)),
        values_of(s.take(p + 1)) == values_of(s.take(p)) + s[p].values(),
{
    assert(s =~= s.take(p) + seq![s[p]] + s.skip(p + 1));
    lemma_values_of_append(s.take(p) + seq![s[p]], s.skip(p + 1));
    lemma_values_of_append(s.take(p), seq![s[p]]);
    lemma_values_of_one(s[p]);
    assert(s.take(p + 1) =~= s.take(p) + seq![s[p]]);
}

impl Leaf {
    pub fn new(order: usize) -> (r: Self)
        ensures
            r.values@.len() == 0,
            r.order == order,
    {
        Leaf { values: Vec::with_capacity(order) , order }
    }

    /// Inserts the value at `index`; a full leaf first moves its upper half into a new
    /// leaf and the value goes into the half the index falls in.
    pub fn insert(&mut self, index: usize, value: u64) -> (r: Option<Node>)
        requires
            Node::Leaf(*old(self)).wf(),
            index <= old(self).values@.len(),
        ensures
            Node::Leaf(*final(self)).wf(),
            final(self).order == old(self).order,
            r is None <==> old(self).values@.len() < old(self).order,
            r is None ==> final(self).values@ == old(self).values@.insert(index as int, value),
            r matches Some(n) ==> n is Leaf && n.wf() && n.order() == old(self).order
                && final(self).values@ + n.values() == old(self).values@.insert(index as int, value)
                && final(self).values@.len() >= 1 && n.values().len() >= 1,
    {
        if self.values.len() == self.order {
            let mid = self.values.len() / 2;
            let mut new_leaf = Leaf::new(self.order);
            new_leaf.values = self.values.split_off(mid);
            if index < mid {
                self.values.insert(index, value);
            } else {
                new_leaf.values.insert(index - mid, value);
            }
            assert(self.values@ + new_leaf.values@ =~= old(self).values@.insert(index as int, value));
            Some(Node::Leaf(new_leaf))
        } else {
            self.values.insert(index, value);
            None
        }
    }

    /// The value at `index`.
    pub fn at_index(&self, index: usize) -> (r: Option<&u64>)
        ensures
            r == (if index < self.values@.len() {
                Some(&self.values@[index as int])
            } else {
                None
            }),
    {
        if index < self.values.len() {
            Some(&self.values[index])
        } else {
            None
        }
    }

    /// The value at `index`, to be changed in place.
    pub fn at_index_mut(&mut self, index: usize) -> (r: Option<&mut u64>)
        ensures
            final(self).order == old(self).order,
            index >= old(self).values@.len() ==> r is None && final(self).values@ == old(self).values@,
            index < old(self).values@.len() ==> r is Some && *r.unwrap() == old(self).values@[index as int]
                && final(self).values@ == old(self).values@.update(index as int, *final(r.unwrap())),
    {
        if index < self.values.len() {
            Some(&mut self.values[index])
        } else {
            None
        }
    }

    pub fn size(&self) -> (r: usize)
        ensures
            r == self.values@.len(),
    {
        self.values.len()
    }

    /// Appends the values from position `index` on.
    pub fn collect_from(&self, index: usize, out: &mut Vec<u64>)
        ensures
            final(out)@ == old(out)@ + suffix(self.values@, index as int),
    {
        let mut i = index;
        let ghost before = out@;
        if i < self.values.len() {
            while i < self.values.len()
                invariant
                    index <= i <= self.values@.len(),
                    out@ == before + self.values@.subrange(index as int, i as int),
                decreases self.values@.len() - i,
            {
                out.push(self.values[i]);
                i = i + 1;
                assert(out@ =~= before + self.values@.subrange(index as int, i as int));
            }
        } else {
            assert(out@ =~= before + suffix(self.values@, index as int));
        }
    }
}

/// The number of leading running totals that are at most `index`.
pub fn partition_point(counts: &Vec<usize>, index: usize) -> (r: usize)
    requires
        forall|i: int, j: int| 0 <= i <= j < counts@.len() ==> counts@[i] <= counts@[j],
    ensures
        r <= counts@.len(),
        forall|i: int| 0 <= i < r ==> counts@[i] <= index,
        forall|i: int| r <= i < counts@.len() ==> counts@[i] > index,
{
    let mut lo: usize = 0;
    let mut hi: usize = counts.len();
    while lo < hi
        invariant
            0 <= lo <= hi <= counts@.len(),
            forall|i: int, j: int| 0 <= i <= j < counts@.len() ==> counts@[i] <= counts@[j],
            forall|i: int| 0 <= i < lo ==> counts@[i] <= index,
            forall|i: int| hi <= i < counts@.len() ==> counts@[i] > index,
        decreases hi - lo,
    {
        let mid = lo + (hi - lo) / 2;
        if counts[mid] <= index {
            lo = mid + 1;
        } else {
            hi = mid;
        }
    }
    lo
}

/// The running totals never decrease.
proof fn lemma_running_sorted(s: Seq<Node>)
    ensures
        forall|i: int, j: int|
            0 <= i <= j < s.len() ==> #[trigger] running(s)[i] <= #[trigger] running(s)[j] || values_of(
                s,
            ).len() > usize::MAX,
{
    assert forall|i: int, j: int| 0 <= i <= j < s.len() && values_of(s).len() <= usize::MAX implies #[trigger] running(s)[i]
        <= #[trigger] running(s)[j] by {
        lemma_values_prefix(s, i + 1, j + 1);
        lemma_values_prefix(s, j + 1, s.len() as int);
        assert(s.take(s.len() as int) =~= s);
    }
}

impl Branch {
    /// A branch with no children, made with room for `order` of them.
    pub fn new(order: usize) -> (r: Self)
        ensures
            r.children@.len() == 0,
            r.order == order,
    {
        Branch { children: Vec::with_capacity(order), counts: vec![0, order], order }
    }

    /// The child that position `index` falls in, and the position within it: the first
    /// child whose running total passes `index`, or the last child.
    pub fn get_child_with_index(&self, index: usize) -> (r: (usize, usize))
        requires
            Node::Branch(*self).wf(),
        ensures
            r.0 < self.children@.len(),
            values_of(self.children@.take(r.0 as int)).len() <= index,
            r.1 == index - values_of(self.children@.take(r.0 as int)).len(),
            r.0 + 1 < self.children@.len() ==> index < values_of(self.children@.take(r.0 + 1)).len(),
    {
        proof {
            lemma_running_sorted(self.children@);
        }
        let p = partition_point(&self.counts, index);
        let last = self.children.len() - 1;
        let pos = if p < last { p } else { last };
        let ghost cs = self.children@;
        proof {
            assert(cs.take(cs.len() as int) =~= cs);
            if pos > 0 {
                lemma_values_prefix(cs, pos as int, cs.len() as int);
                assert(running(cs)[pos - 1] == values_of(cs.take(pos as int)).len() as usize);
                assert(self.counts@[pos - 1] == values_of(cs.take(pos as int)).len());
            } else {
                assert(cs.take(0) =~= Seq::<Node>::empty());
            }
            if pos + 1 < cs.len() {
                lemma_values_prefix(cs, pos + 1, cs.len() as int);
                assert(self.counts@[pos as int] == values_of(cs.take(pos + 1)).len());
            }
        }
        let index = if pos == 0 {
            index
        } else {
            index - self.counts[pos - 1]
        };
        (pos, index)
    }

    /// Recomputes the running totals from child `start` on.
    pub fn update_count(&mut self, start: usize)
        requires
            start == 0,
            forall|i: int| 0 <= i < old(self).children@.len() ==> (#[trigger] old(self).children@[i]).wf(),
            values_of(old(self).children@).len() <= usize::MAX,
        ensures
            final(self).children == old(self).children,
            final(self).order == old(self).order,
            final(self).counts@ == running(old(self).children@),
    {
        let ghost cs = self.children@;
        let ghost old_counts = self.counts@;
        let mut count: usize = 0;
        let mut i: usize = start;
        while i < self.children.len()
            invariant
                self.children@ == cs,
                self.order == old(self).order,
                self.children == old(self).children,
                forall|j: int| 0 <= j < cs.len() ==> (#[trigger] cs[j]).wf(),
                values_of(cs).len() <= usize::MAX,
                i <= cs.len(),
                count == values_of(cs.take(i as int)).len(),
                self.counts@.len() == old_counts.len() + i,
                forall|j: int| 0 <= j < i ==> self.counts@[j] == #[trigger] running(cs)[j],
            decreases cs.len() - i,
        {
            proof {
                lemma_values_around(cs, i as int);
                lemma_values_prefix(cs, i as int + 1, cs.len() as int);
                assert(cs.take(cs.len() as int) =~= cs);
            }
            count = count + self.children[i].size();
            self.counts.insert(i, count);
            i = i + 1;
        }
        self.counts.truncate(self.children.len());
        assert(self.counts@ =~= running(cs));
    }

    /// Whether the branch holds as many children as it was made for.
    pub fn is_full(&self) -> (r: bool)
        ensures
            r == (self.children@.len() == self.order),
    {
        self.children.len() == self.order
    }

    /// The last running total, or zero with no children.
    pub fn size(&self) -> (r: usize)
        ensures
            r == (if self.counts@.len() == 0 { 0 } else { self.counts@.last() }),
    {
        if self.counts.len() == 0 {
            0
        } else {
            self.counts[self.counts.len() - 1]
        }
    }
}

impl Node {
    pub fn branch(order: usize) -> (r: Self)
        ensures
            r matches Node::Branch(b) && b.children@.len() == 0 && b.order == order,
    {
        Node::Branch(Branch::new(order))
    }

    pub fn leaf(order: usize) -> (r: Self)
        ensures
            r matches Node::Leaf(l) && l.values@.len() == 0 && l.order == order,
    {
        Node::Leaf(Leaf::new(order))
    }

    /// The number of values under a well-formed node.
    pub fn size(&self) -> (r: usize)
        requires
            self.wf(),
        ensures
            r == self.values().len(),
    {
        match self {
            Node::Branch(branch) => {
                proof {
                    assert(branch.children@.take(branch.children@.len() as int) =~= branch.children@);
                }
                branch.size()
            },
            Node::Leaf(leaf) => leaf.size(),
        }
    }
}

/// Inserting into the middle part of a sequence made of three parts.
proof fn lemma_insert_middle(a: Seq<u64>, b: Seq<u64>, c: Seq<u64>, j: int, v: u64)
    requires
        0 <= j <= b.len(),
    ensures
        (a + b + c).insert(a.len() + j, v) == a + b.insert(j, v) + c,
{
    assert((a + b + c).insert(a.len() + j, v) =~= a + b.insert(j, v) + c);
}

/// The values under the children, with the child at `pos` replaced and, optionally, a
/// new node put after it.
proof fn lemma_replace_child(s: Seq<Node>, pos: int, c: Node, extra: Seq<Node>)
    requires
        0 <= pos < s.len(),
        extra.len() <= 1,
    ensures
        values_of(s.take(pos) + seq![c] + extra + s.skip(pos + 1)) == values_of(s.take(pos))
            + (c.values() + values_of(extra)) + values_of(s.skip(pos + 1)),
{
    lemma_values_of_append(s.take(pos) + seq![c] + extra, s.skip(pos + 1));
    lemma_values_of_append(s.take(pos) + seq![c], extra);
    lemma_values_of_append(s.take(pos), seq![c]);
    lemma_values_of_one(c);
    assert(values_of(s.take(pos)) + (c.values() + values_of(extra)) + values_of(s.skip(pos + 1))
        =~= values_of(s.take(pos)) + values_of(seq![c]) + values_of(extra) + values_of(s.skip(pos + 1)));
}

/// The nodes have the same numbers of values, one for one.
pub open spec fn same_sizes(s: Seq<Node>, t: Seq<Node>) -> bool {
    s.len() == t.len() && forall|i: int| 0 <= i < s.len() ==> (#[trigger] s[i]).values().len()
        == t[i].values().len()
}

proof fn lemma_same_sizes_len(s: Seq<Node>, t: Seq<Node>)
    requires
        same_sizes(s, t),
    ensures
        values_of(s).len() == values_of(t).len(),
    decreases s.len(),
{
    if s.len() > 0 {
        assert(same_sizes(s.drop_last(), t.drop_last())) by {
            assert forall|i: int| 0 <= i < s.drop_last().len() implies (
            #[trigger] s.drop_last()[i]).values().len() == t.drop_last()[i].values().len() by {
                assert(s.drop_last()[i] == s[i] && t.drop_last()[i] == t[i]);
            }
        }
        lemma_same_sizes_len(s.drop_last(), t.drop_last());
        assert(s.last() == s[s.len() - 1]);
    }
}

/// Replacing a child by one with as many values keeps the running totals and changes the
/// values only in that child's part.
proof fn lemma_replace_same_size(s: Seq<Node>, p: int, c: Node)
    requires
        0 <= p < s.len(),
        c.values().len() == s[p].values().len(),
    ensures
        values_of(s.update(p, c)) == values_of(s.take(p)) + c.values() + values_of(s.skip(p + 1)),
        running(s.update(p, c)) == running(s),
{
    let t = s.update(p, c);
    lemma_values_around(t, p);
    assert(t.take(p) =~= s.take(p));
    assert(t.skip(p + 1) =~= s.skip(p + 1));
    assert forall|i: int| 0 <= i < s.len() implies #[trigger] running(t)[i] == running(s)[i] by {
        assert(same_sizes(t.take(i + 1), s.take(i + 1))) by {
            assert forall|k: int| 0 <= k < t.take(i + 1).len() implies (
            #[trigger] t.take(i + 1)[k]).values().len() == s.take(i + 1)[k].values().len() by {
                assert(t.take(i + 1)[k] == t[k]);
                assert(s.take(i + 1)[k] == s[k]);
            }
        }
        lemma_same_sizes_len(t.take(i + 1), s.take(i + 1));
    }
    assert(running(t) =~= running(s));
}

impl Branch {
    /// Inserts the value at position `index`, into the child that position falls in. A
    /// child that splits puts its new part after it; a full branch then splits too, and its
    /// upper half is returned.
    pub fn insert(&mut self, index: usize, value: u64) -> (r: Option<Node>)
        requires
            Node::Branch(*old(self)).wf(),
            index <= Node::Branch(*old(self)).values().len(),
            Node::Branch(*old(self)).values().len() < usize::MAX,
        ensures
            Node::Branch(*final(self)).wf(),
            final(self).order == old(self).order,
            r is None ==> Node::Branch(*final(self)).values() == Node::Branch(*old(self)).values().insert(
                index as int,
                value,
            ),
            r matches Some(n) ==> n is Branch && n.wf() && n.order() == old(self).order
                && Node::Branch(*final(self)).values() + n.values() == Node::Branch(*old(self)).values().insert(
                index as int,
                value,
            ),
        decreases *old(self),
    {
        let ghost cs = self.children@;
        let (pos, idx) = self.get_child_with_index(index);
        proof {
            lemma_values_around(cs, pos as int);
            lemma_values_prefix(cs, pos as int + 1, cs.len() as int);
            assert(cs.take(cs.len() as int) =~= cs);
            lemma_insert_middle(
                values_of(cs.take(pos as int)),
                cs[pos as int].values(),
                values_of(cs.skip(pos + 1)),
                idx as int,
                value,
            );
        }
        let mut child = self.children.remove(pos);
        assert(child == cs[pos as int]);
        assert(decreases_to!(*old(self) => child)) by {
            assert(decreases_to!(*old(self) => old(self).children));
            assert(decreases_to!(old(self).children => cs));
            assert(decreases_to!(cs => cs[pos as int]));
        }
        let res = child.insert(idx, value);
        self.children.insert(pos, child);
        match res {
            Some(new_node) => {
                if self.is_full() {
                    proof {
                        assert(self.children@ =~= cs.take(pos as int) + seq![child] + Seq::<Node>::empty() + cs.skip(pos + 1));
                        lemma_replace_child(cs, pos as int, child, Seq::empty());
                        assert(values_of(Seq::<Node>::empty()) == Seq::<u64>::empty());
                        assert(child.values() + values_of(Seq::<Node>::empty()) =~= child.values());
                        assert(self.children@.insert(pos + 1, new_node) =~= cs.take(pos as int) + seq![child] + seq![new_node] + cs.skip(pos + 1));
                        lemma_replace_child(cs, pos as int, child, seq![new_node]);
                        lemma_values_of_one(new_node);
                        assert forall|j: int| 0 <= j < self.children@.len() implies (#[trigger] self.children@[j]).wf()
                            && self.children@[j].order() == self.order by {
                            if j != pos {
                                assert(self.children@[j] == cs[j]);
                            }
                        }
                    }
                    return Some(self.insert_and_split(pos, new_node));
                }
                self.children.insert(pos + 1, new_node);
                proof {
                    assert(self.children@ =~= cs.take(pos as int) + seq![child] + seq![new_node] + cs.skip(pos + 1));
                    lemma_replace_child(cs, pos as int, child, seq![new_node]);
                    lemma_values_of_one(new_node);
                    assert forall|j: int| 0 <= j < self.children@.len() implies (#[trigger] self.children@[j]).wf()
                        && self.children@[j].order() == self.order by {
                        if j < pos {
                            assert(self.children@[j] == cs[j]);
                        } else if j > pos + 1 {
                            assert(self.children@[j] == cs[j - 1]);
                        }
                    }
                }
                self.update_count(0);
            },
            None => {
                proof {
                    assert(self.children@ =~= cs.take(pos as int) + seq![child] + Seq::<Node>::empty() + cs.skip(pos + 1));
                    lemma_replace_child(cs, pos as int, child, Seq::empty());
                    assert(values_of(Seq::<Node>::empty()) == Seq::<u64>::empty());
                    assert(child.values() + values_of(Seq::<Node>::empty()) =~= child.values());
                    assert forall|j: int| 0 <= j < self.children@.len() implies (#[trigger] self.children@[j]).wf()
                        && self.children@[j].order() == self.order by {
                        if j != pos {
                            assert(self.children@[j] == cs[j]);
                        }
                    }
                }
                self.update_count(0);
            },
        }
        None
    }

    /// Puts `new_child` after child `pos` of a full branch, then moves the children from
    /// half the order on into a new branch, which is returned.
    pub fn insert_and_split(&mut self, pos: usize, new_child: Node) -> (r: Node)
        requires
            old(self).children@.len() == old(self).order,
            old(self).order >= 2,
            pos < old(self).children@.len(),
            forall|j: int| 0 <= j < old(self).children@.len() ==> (#[trigger] old(self).children@[j]).wf()
                && old(self).children@[j].order() == old(self).order,
            new_child.wf(),
            new_child.order() == old(self).order,
            values_of(old(self).children@.insert(pos + 1, new_child)).len() <= usize::MAX,
        ensures
            Node::Branch(*final(self)).wf(),
            final(self).order == old(self).order,
            r is Branch && r.wf() && r.order() == old(self).order,
            Node::Branch(*final(self)).values() + r.values() == values_of(old(self).children@.insert(pos + 1, new_child)),
    {
        let order = self.order;
        let mid = order / 2;
        let mut new_branch = Branch::new(order);
        self.children.insert(pos + 1, new_child);
        let ghost all = self.children@;
        new_branch.children = self.children.split_off(mid);
        proof {
            assert(all =~= self.children@ + new_branch.children@);
            lemma_values_of_append(self.children@, new_branch.children@);
            lemma_values_prefix(all, mid as int, all.len() as int);
            assert(all.take(mid as int) =~= self.children@);
            assert(all.take(all.len() as int) =~= all);
            assert(all.subrange(mid as int, all.len() as int) =~= new_branch.children@);
            assert forall|j: int| 0 <= j < all.len() implies (#[trigger] all[j]).wf() && all[j].order() == order by {
                if j < pos + 1 {
                    assert(all[j] == old(self).children@[j]);
                } else if j > pos + 1 {
                    assert(all[j] == old(self).children@[j - 1]);
                }
            }
            assert forall|j: int| 0 <= j < self.children@.len() implies (#[trigger] self.children@[j]).wf() by {
                assert(self.children@[j] == all[j]);
            }
            assert forall|j: int| 0 <= j < new_branch.children@.len() implies (#[trigger] new_branch.children@[j]).wf() by {
                assert(new_branch.children@[j] == all[j + mid]);
            }
        }
        self.update_count(0);
        new_branch.update_count(0);
        proof {
            assert forall|j: int| 0 <= j < self.children@.len() implies (#[trigger] self.children@[j]).order() == order by {
                assert(self.children@[j] == all[j]);
            }
            assert forall|j: int| 0 <= j < new_branch.children@.len() implies (#[trigger] new_branch.children@[j]).order() == order by {
                assert(new_branch.children@[j] == all[j + mid]);
            }
        }
        Node::Branch(new_branch)
    }

    /// The value at position `index`.
    pub fn at_index(&self, index: usize) -> (r: Option<&u64>)
        requires
            Node::Branch(*self).wf(),
        ensures
            r == (if index < Node::Branch(*self).values().len() {
                Some(&Node::Branch(*self).values()[index as int])
            } else {
                None
            }),
        decreases *self,
    {
        let ghost cs = self.children@;
        let (pos, idx) = self.get_child_with_index(index);
        proof {
            lemma_values_around(cs, pos as int);
            lemma_values_prefix(cs, pos as int + 1, cs.len() as int);
            assert(cs.take(cs.len() as int) =~= cs);
        }
        assert(decreases_to!(*self => cs[pos as int])) by {
            assert(decreases_to!(*self => self.children));
            assert(decreases_to!(self.children => cs));
            assert(decreases_to!(cs => cs[pos as int]));
        }
        self.children[pos].at_index(idx)
    }

    /// The value at position `index`, to be changed in place.
    pub fn at_index_mut(&mut self, index: usize) -> (r: Option<&mut u64>)
        requires
            Node::Branch(*old(self)).wf(),
        ensures
            Node::Branch(*final(self)).wf(),
            final(self).order == old(self).order,
            final(self).children@.len() == old(self).children@.len(),
            index >= Node::Branch(*old(self)).values().len() ==> r is None && Node::Branch(
                *final(self),
            ).values() == Node::Branch(*old(self)).values(),
            index < Node::Branch(*old(self)).values().len() ==> r is Some && *r.unwrap() == Node::Branch(
                *old(self),
            ).values()[index as int] && Node::Branch(*final(self)).values() == Node::Branch(
                *old(self),
            ).values().update(index as int, *final(r.unwrap())),
        decreases *old(self),
    {
        let ghost cs = self.children@;
        let (pos, idx) = self.get_child_with_index(index);
        proof {
            lemma_values_around(cs, pos as int);
            lemma_values_prefix(cs, pos as int + 1, cs.len() as int);
            assert(cs.take(cs.len() as int) =~= cs);
        }
        assert(decreases_to!(*old(self) => cs[pos as int])) by {
            assert(decreases_to!(*old(self) => old(self).children));
            assert(decreases_to!(old(self).children => cs));
            assert(decreases_to!(cs => cs[pos as int]));
        }
        let child = &mut self.children[pos];
        let ghost c2 = *final(child);
        let r = child.at_index_mut(idx);
        proof {
            let t = cs.update(pos as int, c2);
            lemma_replace_same_size(cs, pos as int, c2);
            let a = values_of(cs.take(pos as int));
            let b = cs[pos as int].values();
            let z = values_of(cs.skip(pos as int + 1));
            if idx < b.len() {
                assert((a + b + z).update(a.len() + idx, *final(r.unwrap())) =~= a + b.update(
                    idx as int,
                    *final(r.unwrap()),
                ) + z);
            }
            assert forall|i: int| 0 <= i < t.len() implies (#[trigger] t[i]).wf() && t[i].order()
                == old(self).order by {
                if i != pos {
                    assert(t[i] == cs[i]);
                }
            }
        }
        r
    }

    /// Appends the values from position `index` on.
    pub fn collect_from(&self, index: usize, out: &mut Vec<u64>)
        requires
            Node::Branch(*self).wf(),
        ensures
            final(out)@ == old(out)@ + suffix(Node::Branch(*self).values(), index as int),
        decreases *self,
    {
        let ghost cs = self.children@;
        let ghost vs = values_of(cs);
        let (pos, idx) = self.get_child_with_index(index);
        proof {
            lemma_values_around(cs, pos as int);
            lemma_values_prefix(cs, pos as int + 1, cs.len() as int);
            assert(cs.take(cs.len() as int) =~= cs);
        }
        assert(decreases_to!(*self => cs[pos as int])) by {
            assert(decreases_to!(*self => self.children));
            assert(decreases_to!(self.children => cs));
            assert(decreases_to!(cs => cs[pos as int]));
        }
        let ghost c = cs[pos as int];
        let ghost before = out@;
        self.children[pos].collect_from(idx, out);
        proof {
            assert(cs.subrange(pos + 1, pos + 1) =~= Seq::<Node>::empty());
            assert(values_of(Seq::<Node>::empty()) == Seq::<u64>::empty());
            assert(out@ =~= before + suffix(c.values(), idx as int) + values_of(cs.subrange(pos + 1, pos + 1)));
        }
        let mut j = pos + 1;
        while j < self.children.len()
            invariant
                cs == self.children@,
                Node::Branch(*self).wf(),
                pos < j <= cs.len(),
                c == cs[pos as int],
                out@ == before + suffix(c.values(), idx as int) + values_of(cs.subrange(pos + 1, j as int)),
            decreases cs.len() - j,
        {
            assert(decreases_to!(*self => cs[j as int])) by {
                assert(decreases_to!(*self => self.children));
                assert(decreases_to!(self.children => cs));
                assert(decreases_to!(cs => cs[j as int]));
            }
            let ghost mid = out@;
            self.children[j].collect_from(0, out);
            proof {
                assert(cs.subrange(pos + 1, j + 1) =~= cs.subrange(pos + 1, j as int) + seq![cs[j as int]]);
                lemma_values_of_append(cs.subrange(pos + 1, j as int), seq![cs[j as int]]);
                lemma_values_of_one(cs[j as int]);
                assert(suffix(cs[j as int].values(), 0) =~= cs[j as int].values());
                assert(out@ =~= before + suffix(c.values(), idx as int) + values_of(cs.subrange(pos + 1, j + 1)));
            }
            j = j + 1;
        }
        proof {
            assert(cs.subrange(pos + 1, cs.len() as int) =~= cs.skip(pos + 1));
            let start = values_of(cs.take(pos as int));
            if index < vs.len() {
                assert(suffix(vs, index as int) =~= suffix(c.values(), idx as int) + values_of(cs.skip(pos + 1)));
            } else {
                assert(pos + 1 == cs.len());
                assert(cs.skip(pos + 1) =~= Seq::<Node>::empty());
                assert(suffix(vs, index as int) =~= suffix(c.values(), idx as int) + values_of(cs.skip(pos + 1)));
            }
        }
    }
}

/// The values from position `index` on; none past the end.
pub open spec fn suffix(s: Seq<u64>, index: int) -> Seq<u64> {
    if index < s.len() {
        s.subrange(index, s.len() as int)
    } else {
        Seq::empty()
    }
}

impl Node {
    /// Inserts the value at position `index`; returns the new upper part of a split.
    pub fn insert(&mut self, index: usize, value: u64) -> (r: Option<Node>)
        requires
            old(self).wf(),
            index <= old(self).values().len(),
            old(self).values().len() < usize::MAX,
        ensures
            final(self).wf(),
            final(self).order() == old(self).order(),
            (*final(self) is Leaf) == (*old(self) is Leaf),
            r is None ==> final(self).values() == old(self).values().insert(index as int, value),
            r matches Some(n) ==> n.wf() && n.order() == old(self).order() && (n is Leaf) == (*old(
                self,
            ) is Leaf) && final(self).values() + n.values() == old(self).values().insert(
                index as int,
                value,
            ),
        decreases *old(self),
    {
        match self {
            Node::Branch(branch) => branch.insert(index, value),
            Node::Leaf(leaf) => leaf.insert(index, value),
        }
    }

    /// Appends the values from position `index` on.
    pub fn collect_from(&self, index: usize, out: &mut Vec<u64>)
        requires
            self.wf(),
        ensures
            final(out)@ == old(out)@ + suffix(self.values(), index as int),
        decreases *self,
    {
        match self {
            Node::Branch(branch) => branch.collect_from(index, out),
            Node::Leaf(leaf) => leaf.collect_from(index, out),
        }
    }

    /// The values from position `index` on, as an iteration over the tree would give them.
    pub fn iter_from(&self, index: usize) -> (r: Option<Vec<u64>>)
        requires
            self.wf(),
        ensures
            r matches Some(v) && v@ == suffix(self.values(), index as int),
    {
        let mut out: Vec<u64> = Vec::new();
        self.collect_from(index, &mut out);
        assert(out@ =~= suffix(self.values(), index as int));
        Some(out)
    }

    /// The value at position `index`.
    pub fn at_index(&self, index: usize) -> (r: Option<&u64>)
        requires
            self.wf(),
        ensures
            r == (if index < self.values().len() {
                Some(&self.values()[index as int])
            } else {
                None
            }),
        decreases *self,
    {
        match self {
            Node::Branch(branch) => branch.at_index(index),
            Node::Leaf(leaf) => leaf.at_index(index),
        }
    }

    /// The value at position `index`, to be changed in place.
    pub fn at_index_mut(&mut self, index: usize) -> (r: Option<&mut u64>)
        requires
            old(self).wf(),
        ensures
            final(self).wf(),
            final(self).order() == old(self).order(),
            index >= old(self).values().len() ==> r is None && final(self).values() == old(
                self,
            ).values(),
            index < old(self).values().len() ==> r is Some && *r.unwrap() == old(self).values()[index as int]
                && final(self).values() == old(self).values().update(
                index as int,
                *final(r.unwrap()),
            ),
        decreases *old(self),
    {
        match self {
            Node::Branch(branch) => branch.at_index_mut(index),
            Node::Leaf(leaf) => leaf.at_index_mut(index),
        }
    }
}

/// A sequence of values kept in a B-tree like structure, with a fast insertion by
/// position. Each inserted value remembers where it went, and the later insertions that
/// shift it, so that its current position can be found.
pub struct ChangeTree {
    pub root: Node,
    pub order: usize,
    pub dirty: HashSet<u64>,
    pub refs: HashMap<u64, IndexRef>,
    pub mapper: IndexMapper,
}

impl ChangeTree {
    /// The values in order.
    pub open spec fn values(&self) -> Seq<u64> {
        self.root.values()
    }

    /// Where the index of `r` has moved to through the insertions after it.
    pub open spec fn position(&self, r: IndexRef) -> int {
        mapped(self.mapper.map@.subrange(r.mapper + 1, self.mapper.map@.len() as int), r.index as int)
    }

    /// The tree is well formed with room for `order` entries per node.
    pub open spec fn tree_ok(&self) -> bool {
        &&& self.root.wf()
        &&& self.root.order() == self.order
        &&& self.order >= 2
        &&& self.mapper.wf()
    }

    /// The tree is well formed and every remembered value is where its reference leads.
    pub open spec fn wf(&self) -> bool {
        &&& self.tree_ok()
        &&& forall|v: u64|
            #[trigger] self.refs@.contains_key(v) ==> {
                let r = self.refs@[v];
                &&& r.mapper + 1 <= self.mapper.map@.len()
                &&& 0 <= self.position(r) < self.values().len()
                &&& self.values()[self.position(r)] == v
            }
    }

    /// An empty tree with room for ten entries per node.
    pub fn new() -> (r: Self)
        ensures
            r.wf(),
            r.order == 10,
            r.values().len() == 0,
            r.refs@.len() == 0,
    {
        Self::with_order(10)
    }

    /// An empty tree with room for `k` entries per node.
    pub fn with_order(k: usize) -> (r: Self)
        requires
            k >= 2,
        ensures
            r.wf(),
            r.order == k,
            r.values().len() == 0,
            r.refs@.len() == 0,
            r.dirty@.len() == 0,
            r.mapper.map@.len() == 1,
    {
        ChangeTree {
            root: Node::leaf(k),
            order: k,
            dirty: HashSet::new(),
            refs: HashMap::new(),
            mapper: IndexMapper::default(),
        }
    }

    /// Rewrites the reference of each value marked dirty as its current position with no
    /// insertion before it, and clears the marks.
    pub fn compress(&mut self)
        requires
            forall|v: u64|
                old(self).dirty@.contains(v) && #[trigger] old(self).refs@.contains_key(v) ==> {
                    let r = old(self).refs@[v];
                    &&& r.mapper + 1 <= old(self).mapper.map@.len()
                    &&& old(self).position(r) <= usize::MAX
                },
        ensures
            final(self).root == old(self).root,
            final(self).mapper == old(self).mapper,
            final(self).order == old(self).order,
            final(self).dirty@.len() == 0,
            final(self).refs@.dom() == old(self).refs@.dom(),
            forall|v: u64|
                #[trigger] old(self).refs@.contains_key(v) ==> final(self).refs@[v] == if old(
                    self,
                ).dirty@.contains(v) {
                    IndexRef { index: old(self).position(old(self).refs@[v]) as usize, mapper: 0 }
                } else {
                    old(self).refs@[v]
                },
    {
        broadcast use vstd::std_specs::hash::group_hash_axioms;

        let ghost old_refs = self.refs@;
        let ghost mut seen: Seq<u64> = Seq::empty();
        for id in it: self.dirty.iter()
            invariant
                self.root == old(self).root,
                self.mapper == old(self).mapper,
                self.order == old(self).order,
                self.dirty == old(self).dirty,
                it.seq().unref().to_set() == old(self).dirty@,
                it.seq().no_duplicates(),
                forall|v: u64|
                    #[trigger] old(self).dirty@.contains(v) ==> seen.contains(v) || exists|j: int|
                        it.index() <= j < it.seq().len() && *it.seq()[j] == v,
                seen.len() == it.index(),
                forall|j: int| 0 <= j < seen.len() ==> seen[j] == *it.seq()[j],
                forall|j: int| 0 <= j < seen.len() ==> old(self).dirty@.contains(#[trigger] seen[j]),
                self.refs@.dom() == old_refs.dom(),
                old_refs == old(self).refs@,
                forall|v: u64|
                    old(self).dirty@.contains(v) && #[trigger] old_refs.contains_key(v) ==> {
                        let r = old_refs[v];
                        &&& r.mapper + 1 <= old(self).mapper.map@.len()
                        &&& old(self).position(r) <= usize::MAX
                    },
                forall|v: u64|
                    #[trigger] old_refs.contains_key(v) ==> self.refs@[v] == if seen.contains(v) {
                        IndexRef { index: old(self).position(old_refs[v]) as usize, mapper: 0 }
                    } else {
                        old_refs[v]
                    },
        {
            let ghost k = *id;
            proof {
                assert(it.seq()[it.index() as int] == id);
                assert(it.seq().unref()[it.index() as int] == k);
                assert(it.seq().unref().contains(k));
                assert(it.seq().unref().to_set().contains(k));
                assert(old(self).dirty@.contains(k));
                assert(!seen.contains(k)) by {
                    if seen.contains(k) {
                        let j = choose|j: int| 0 <= j < seen.len() && seen[j] == k;
                        assert(it.seq()[j] == it.seq()[it.index() as int]);
                    }
                }
            }
            if let Some(idx_ref) = self.refs.get(id) {
                let index = self.mapper.map_ref(idx_ref);
                self.refs.insert(*id, IndexRef { index, mapper: 0 });
            }
            proof {
                let old_seen = seen;
                seen = seen.push(k);
                assert forall|v: u64| #[trigger] old(self).dirty@.contains(v) implies seen.contains(v) || exists|j: int|
                    it.index() + 1 <= j < it.seq().len() && *it.seq()[j] == v by {
                    if !old_seen.contains(v) {
                        let j = choose|j: int| it.index() <= j < it.seq().len() && *it.seq()[j] == v;
                        if j == it.index() {
                            assert(seen[old_seen.len() as int] == v);
                        } else {
                            assert(it.index() + 1 <= j < it.seq().len() && *it.seq()[j] == v);
                        }
                    } else {
                        let j = choose|j: int| 0 <= j < old_seen.len() && old_seen[j] == v;
                        assert(seen[j] == v);
                    }
                }
                assert forall|v: u64| #[trigger] old_refs.contains_key(v) implies self.refs@[v] == if seen.contains(v) {
                    IndexRef { index: old(self).position(old_refs[v]) as usize, mapper: 0 }
                } else {
                    old_refs[v]
                } by {
                    if v != k {
                        assert(seen.contains(v) == old_seen.contains(v)) by {
                            if seen.contains(v) {
                                let j = choose|j: int| 0 <= j < seen.len() && seen[j] == v;
                                assert(old_seen[j] == v);
                            }
                            if old_seen.contains(v) {
                                let j = choose|j: int| 0 <= j < old_seen.len() && old_seen[j] == v;
                                assert(seen[j] == v);
                            }
                        }
                    } else {
                        assert(seen[old_seen.len() as int] == v);
                    }
                }
            }
        }
        proof {
            assert forall|v: u64| #[trigger] old_refs.contains_key(v) implies (seen.contains(v) <==> old(self).dirty@.contains(v)) by {
                if old(self).dirty@.contains(v) {
                    assert(seen.contains(v));
                }
                if seen.contains(v) {
                    let j = choose|j: int| 0 <= j < seen.len() && seen[j] == v;
                    assert(old(self).dirty@.contains(seen[j]));
                }
            }
        }
        self.dirty.clear();
    }

    /// Inserts `value` at position `index` and remembers where it went; a root that splits
    /// gets a new root above it.
    pub fn insert(&mut self, index: usize, value: u64)
        requires
            old(self).tree_ok(),
            index <= old(self).values().len(),
            old(self).values().len() < usize::MAX,
        ensures
            final(self).tree_ok(),
            inserted(*old(self), *final(self), index, value),
            old(self).wf() && old(self).mapper.map@.len() <= u16::MAX ==> final(self).wf(),
    {
        broadcast use vstd::std_specs::hash::group_hash_axioms;

        let ghost pre = *self;
        let n = self.mapper.len();
        #[verifier::truncate]
        let mapper = n as u16;
        self.refs.insert(value, IndexRef::new(index, mapper));
        self.mapper.push(IndexMap::insert(index));
        if let Some(node) = self.root.insert(index, value) {
            let mut old_root = Node::branch(self.order);
            std::mem::swap(&mut old_root, &mut self.root);
            let mut branch = Branch::new(self.order);
            branch.children.push(old_root);
            branch.children.push(node);
            proof {
                let cs = branch.children@;
                assert(cs =~= seq![cs[0]] + seq![cs[1]]);
                lemma_values_of_append(seq![cs[0]], seq![cs[1]]);
                lemma_values_of_one(cs[0]);
                lemma_values_of_one(cs[1]);
            }
            branch.update_count(0);
            self.root = Node::Branch(branch);
        }
        proof {
            if pre.wf() && pre.mapper.map@.len() <= u16::MAX {
                lemma_insert_then_find(pre, *self, index, value);
            }
        }
    }

    /// The current position of `value`, if it was ever inserted.
    pub fn index_of(&self, value: &u64) -> (r: Option<usize>)
        requires
            self.wf(),
        ensures
            r == (if self.refs@.contains_key(*value) {
                Some(self.position(self.refs@[*value]) as usize)
            } else {
                None
            }),
            r matches Some(i) ==> i < self.values().len() && self.values()[i as int] == *value,
    {
        broadcast use vstd::std_specs::hash::group_hash_axioms;

        if let Some(index_ref) = self.refs.get(value) {
            proof {
                assert(self.refs@.contains_key(*value));
            }
            Some(self.mapper.map_ref(index_ref))
        } else {
            None
        }
    }

    /// The value at position `index`.
    pub fn at_index(&self, index: usize) -> (r: Option<&u64>)
        requires
            self.tree_ok(),
        ensures
            r == (if index < self.values().len() {
                Some(&self.values()[index as int])
            } else {
                None
            }),
    {
        if index >= self.root.size() {
            return None;
        }
        self.root.at_index(index)
    }

    /// The value at position `index`, to be changed in place.
    pub fn at_index_mut(&mut self, index: usize) -> (r: Option<&mut u64>)
        requires
            old(self).tree_ok(),
        ensures
            final(self).tree_ok(),
            final(self).order == old(self).order,
            final(self).refs == old(self).refs,
            final(self).mapper == old(self).mapper,
            final(self).dirty == old(self).dirty,
            index >= old(self).values().len() ==> r is None && final(self).values() == old(
                self,
            ).values(),
            index < old(self).values().len() ==> r is Some && *r.unwrap() == old(self).values()[index as int]
                && final(self).values() == old(self).values().update(
                index as int,
                *final(r.unwrap()),
            ),
    {
        if index >= self.root.size() {
            return None;
        }
        self.root.at_index_mut(index)
    }

    /// Whether `value` was ever inserted.
    pub fn contains(&self, value: &u64) -> (r: bool)
        ensures
            r == self.refs@.contains_key(*value),
    {
        broadcast use vstd::std_specs::hash::group_hash_axioms;

        self.refs.contains_key(value)
    }

    /// The number of values.
    pub fn size(&self) -> (r: usize)
        requires
            self.tree_ok(),
        ensures
            r == self.values().len(),
    {
        self.root.size()
    }

    /// The values from position `index` on.
    pub fn iter_from(&self, index: usize) -> (r: Option<Vec<u64>>)
        requires
            self.tree_ok(),
        ensures
            r matches Some(v) && v@ == suffix(self.values(), index as int),
    {
        self.root.iter_from(index)
    }
}

/// What an insertion of `value` at `index` makes of `pre`: the value stands at `index`,
/// the insertion is recorded, and the value's reference points at it.
pub open spec fn inserted(pre: ChangeTree, post: ChangeTree, index: usize, value: u64) -> bool {
    &&& post.values() == pre.values().insert(index as int, value)
    &&& post.order == pre.order
    &&& post.dirty == pre.dirty
    &&& post.mapper.map@ == pre.mapper.map@.push(IndexMap { index })
    &&& post.refs@ == pre.refs@.insert(
        value,
        IndexRef { index, mapper: pre.mapper.map@.len() as u16 },
    )
}

/// Inserting into a well-formed tree keeps it well formed: the value is then found at the
/// index it went in at, and every other value found before is found one further on if it
/// stood at or after that index, and where it was otherwise.
pub proof fn lemma_insert_then_find(pre: ChangeTree, post: ChangeTree, index: usize, value: u64)
    requires
        pre.wf(),
        pre.mapper.map@.len() <= u16::MAX,
        index <= pre.values().len(),
        post.tree_ok(),
        inserted(pre, post, index, value),
    ensures
        post.wf(),
        post.refs@.contains_key(value),
        post.position(post.refs@[value]) == index,
        post.values()[index as int] == value,
        forall|w: u64|
            w != value && #[trigger] pre.refs@.contains_key(w) ==> post.refs@.contains_key(w)
                && post.position(post.refs@[w]) == step(index, pre.position(pre.refs@[w])),
{
    let ms = post.mapper.map@;
    let n = pre.mapper.map@.len();
    assert forall|v: u64| #[trigger] post.refs@.contains_key(v) implies {
        let r = post.refs@[v];
        &&& r.mapper + 1 <= ms.len()
        &&& 0 <= post.position(r) < post.values().len()
        &&& post.values()[post.position(r)] == v
        &&& v != value ==> post.position(r) == step(index, pre.position(pre.refs@[v]))
    } by {
        let r = post.refs@[v];
        if v == value {
            assert(r.mapper == n);
            assert(ms.subrange(r.mapper + 1, ms.len() as int) =~= Seq::<IndexMap>::empty());
            assert(post.position(r) == index);
        } else {
            assert(pre.refs@.contains_key(v));
            let sub = ms.subrange(r.mapper + 1, ms.len() as int);
            assert(sub.drop_last() =~= pre.mapper.map@.subrange(r.mapper + 1, n as int));
            assert(sub.last() == IndexMap { index });
            assert(post.position(r) == step(index, pre.position(r)));
        }
    }
    assert(post.refs@.contains_key(value));
}

} // verus!
