use vstd::prelude::*;

verus! {

/// An index that still has to be mapped through the index maps pushed after `mapper`.
#[derive(Debug, Clone, Default, PartialEq, Eq)]
pub struct IndexRef {
    pub index: usize,
    pub mapper: u16,
}

impl IndexRef {
    pub fn new(index: usize, mapper: u16) -> (r: IndexRef)
        ensures
            r.index == index,
            r.mapper == mapper,
    {
        IndexRef { index, mapper }
    }
}

/// Records one insertion at `index`: every position at or after it moves one to the right.
#[derive(Clone, Debug)]
pub struct IndexMap {
    pub index: usize,
}

/// Where an insertion at `m` moves position `i`.
pub open spec fn step(m: usize, i: int) -> int {
    if m <= i {
        i + 1
    } else {
        i
    }
}

/// Where position `p` was before an insertion at `m`.
pub open spec fn unstep(m: usize, p: int) -> int {
    if m < p {
        p - 1
    } else {
        p
    }
}

/// Position `i` mapped through the insertions `ms`, first to last.
pub open spec fn mapped(ms: Seq<IndexMap>, i: int) -> int
    decreases ms.len(),
{
    if ms.len() == 0 {
        i
    } else {
        step(ms.last().index, mapped(ms.drop_last(), i))
    }
}

/// Position `p` mapped back through the insertions `ms`, last to first.
pub open spec fn unmapped(ms: Seq<IndexMap>, p: int) -> int
    decreases ms.len(),
{
    if ms.len() == 0 {
        p
    } else {
        unmapped(ms.drop_last(), unstep(ms.last().index, p))
    }
}

impl IndexMap {
    /// The map of an insertion at `at`.
    pub fn insert(at: usize) -> (r: IndexMap)
        ensures
            r.index == at,
    {
        IndexMap { index: at }
    }

    /// The map that moves no position that fits in memory.
    pub fn default() -> (r: IndexMap)
        ensures
            r.index == usize::MAX,
    {
        IndexMap { index: usize::MAX }
    }

    pub fn last_index(&self) -> (r: usize)
        ensures
            r == self.index,
    {
        self.index
    }

    /// Where the insertion moves position `index`.
    pub fn map(&self, index: usize) -> (r: usize)
        requires
            step(self.index, index as int) <= usize::MAX,
        ensures
            r == step(self.index, index as int),
    {
        if self.index <= index {
            index + 1
        } else {
            index
        }
    }

    /// Where position `pos` was before the insertion.
    pub fn unmap(&self, pos: usize) -> (r: usize)
        ensures
            r == unstep(self.index, pos as int),
    {
        if self.index < pos {
            pos - 1
        } else {
            pos
        }
    }

    /// The positions the map starts and ends at.
    pub fn range(&self) -> (r: (usize, usize))
        ensures
            r == (self.index, self.index),
    {
        (self.index, self.last_index())
    }
}

/// Maps an old index to the current one through the insertions made since.
#[derive(Clone, Debug)]
pub struct IndexMapper {
    pub map: Vec<IndexMap>,
}

impl IndexMapper {
    pub open spec fn wf(&self) -> bool {
        self.map@.len() >= 1
    }

    pub fn new() -> (r: Self)
        ensures
            r.wf(),
            r.map@.len() == 1,
            r.map@[0].index == usize::MAX,
    {
        Self::default()
    }

    /// A mapper holding only the map that moves nothing.
    pub fn default() -> (r: IndexMapper)
        ensures
            r.wf(),
            r.map@.len() == 1,
            r.map@[0].index == usize::MAX,
    {
        let mut map = Vec::new();
        map.push(IndexMap::default());
        IndexMapper { map }
    }

    /// Drops every map but the first.
    pub fn reset(&mut self)
        requires
            old(self).wf(),
        ensures
            final(self).map@ == old(self).map@.subrange(0, 1),
    {
        self.map.truncate(1);
    }

    /// Adds a map and returns its position.
    pub fn push(&mut self, map: IndexMap) -> (r: usize)
        ensures
            final(self).map@ == old(self).map@.push(map),
            r == old(self).map@.len(),
    {
        self.map.push(map);
        self.map.len() - 1
    }

    /// The current position of an index reference.
    pub fn map_ref(&self, index_ref: &IndexRef) -> (r: usize)
        requires
            index_ref.mapper + 1 <= self.map@.len(),
            mapped(
                self.map@.subrange(index_ref.mapper + 1, self.map@.len() as int),
                index_ref.index as int,
            ) <= usize::MAX,
        ensures
            r == mapped(
                self.map@.subrange(index_ref.mapper + 1, self.map@.len() as int),
                index_ref.index as int,
            ),
    {
        self.map(index_ref.mapper, index_ref.index)
    }

    /// Position `index` mapped through the maps pushed after map `after`.
    pub fn map(&self, after: u16, index: usize) -> (r: usize)
        requires
            after + 1 <= self.map@.len(),
            mapped(self.map@.subrange(after + 1, self.map@.len() as int), index as int)
                <= usize::MAX,
        ensures
            r == mapped(self.map@.subrange(after + 1, self.map@.len() as int), index as int),
    {
        let ghost all = self.map@.subrange(after + 1, self.map@.len() as int);
        let mut pos = index;
        let mut i: usize = after as usize + 1;
        proof {
            assert(all.subrange(0, 0) =~= Seq::<IndexMap>::empty());
        }
        while i < self.map.len()
            invariant
                after + 1 <= i <= self.map@.len(),
                all == self.map@.subrange(after + 1, self.map@.len() as int),
                mapped(all, index as int) <= usize::MAX,
                pos == mapped(all.subrange(0, i - (after + 1)), index as int),
            decreases self.map@.len() - i,
        {
            let ghost done = all.subrange(0, i - (after + 1));
            let ghost next = all.subrange(0, i - (after + 1) + 1);
            proof {
                assert(next.drop_last() =~= done);
                assert(next.last() == self.map@[i as int]);
                lemma_mapped_prefix_le(all, i - (after + 1) + 1, index as int);
            }
            pos = self.map[i].map(pos);
            i = i + 1;
        }
        proof {
            assert(all.subrange(0, all.len() as int) =~= all);
        }
        pos
    }

    /// Position `pos` mapped back through all maps, last to first.
    pub fn unmap(&self, pos: usize) -> (r: usize)
        ensures
            r == unmapped(self.map@, pos as int),
    {
        let mut p = pos;
        let mut i: usize = self.map.len();
        proof {
            assert(self.map@.subrange(0, i as int) =~= self.map@);
        }
        while i > 0
            invariant
                i <= self.map@.len(),
                0 <= p,
                unmapped(self.map@, pos as int) == unmapped(self.map@.subrange(0, i as int), p as int),
            decreases i,
        {
            proof {
                let s = self.map@.subrange(0, i as int);
                assert(s.drop_last() =~= self.map@.subrange(0, i - 1));
                assert(s.last() == self.map@[i - 1]);
            }
            p = self.map[i - 1].unmap(p);
            i = i - 1;
        }
        proof {
            assert(self.map@.subrange(0, 0) =~= Seq::<IndexMap>::empty());
        }
        p
    }

    pub fn len(&self) -> (r: usize)
        ensures
            r == self.map@.len(),
    {
        self.map.len()
    }

    /// The position of the last insertion.
    pub fn last_index(&self) -> (r: usize)
        requires
            self.wf(),
        ensures
            r == self.map@[self.map@.len() - 1].index,
    {
        self.map[self.map.len() - 1].last_index()
    }
}

/// Mapping never moves a position left.
pub proof fn lemma_mapped_grows(ms: Seq<IndexMap>, i: int)
    ensures
        mapped(ms, i) >= i,
    decreases ms.len(),
{
    if ms.len() > 0 {
        lemma_mapped_grows(ms.drop_last(), i);
    }
}

/// Mapping through a prefix of the maps gives at most mapping through all of them.
pub proof fn lemma_mapped_prefix_le(ms: Seq<IndexMap>, n: int, i: int)
    requires
        0 <= n <= ms.len(),
    ensures
        mapped(ms.subrange(0, n), i) <= mapped(ms, i),
    decreases ms.len() - n,
{
    if n < ms.len() {
        lemma_mapped_prefix_le(ms, n + 1, i);
        let s = ms.subrange(0, n + 1);
        assert(s.drop_last() =~= ms.subrange(0, n));
    } else {
        assert(ms.subrange(0, n) =~= ms);
    }
}

/// Undo law: mapping a position back through the same insertions gives it back.
pub proof fn lemma_unmap_map(ms: Seq<IndexMap>, i: int)
    ensures
        unmapped(ms, mapped(ms, i)) == i,
    decreases ms.len(),
{
    if ms.len() > 0 {
        lemma_unmap_map(ms.drop_last(), i);
    }
}

/// The map that moves nothing leaves every position in memory where it is, either way.
pub proof fn lemma_default_map_fixes(p: usize)
    ensures
        step(usize::MAX, p as int) == p || p == usize::MAX,
        unstep(usize::MAX, p as int) == p,
{
}

} // verus!
