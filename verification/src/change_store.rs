use crate::id::{ClientId, Id, IdComp, Relation, WithId};
use std::collections::HashMap;
use vstd::prelude::*;

verus! {

/// The rank of a relation: before, covering, after.
pub open spec fn rank(r: Relation) -> int {
    match r {
        Relation::Less => 0,
        Relation::Equal => 1,
        Relation::Greater => 2,
    }
}

/// The entries are laid out for `id`: those before it first, then those covering it,
/// then those after it.
pub open spec fn laid_out<T: IdComp>(s: Seq<T>, id: Id) -> bool {
    forall|i: int, j: int|
        0 <= i <= j < s.len() ==> rank(s[i].spec_comp_id(id)) <= rank(s[j].spec_comp_id(id))
}

/// The entries of one client in the order they were made, with a cursor used to walk
/// back and forth over them; `cursor` counts the entries before it.
#[derive(Debug, Clone, Default)]
pub struct ItemStackStore<T> {
    pub items: Vec<T>,
    pub cursor: usize,
}

impl<T: WithId + IdComp> ItemStackStore<T> {
    pub fn new() -> (r: Self)
        ensures
            r.items@.len() == 0,
            r.cursor == 0,
    {
        ItemStackStore { items: Vec::new(), cursor: 0 }
    }

    /// Pushes an entry and moves the cursor past it, unless the last entry has an id with
    /// the same clock.
    pub fn push(&mut self, item: T)
        requires
            old(self).cursor < usize::MAX,
        ensures
            ({
                let s = old(self).items@;
                if s.len() > 0 && s.last().spec_id().clock == item.spec_id().clock {
                    *final(self) == *old(self)
                } else {
                    final(self).items@ == s.push(item) && final(self).cursor == old(self).cursor + 1
                }
            }),
    {
        let n = self.items.len();
        if n > 0 && self.items[n - 1].id().clock == item.id().clock {
            return;
        }
        self.items.push(item);
        self.cursor = self.cursor + 1;
    }

    /// An entry that covers the id, searched by halving over the entries.
    pub fn find(&self, id: Id) -> (r: Option<&T>)
        ensures
            r matches Some(x) ==> self.items@.contains(*x) && x.spec_comp_id(id) == Relation::Equal,
            r is None && laid_out(self.items@, id) ==> !(exists|i: int|
                0 <= i < self.items@.len() && (#[trigger] self.items@[i]).spec_comp_id(id)
                    == Relation::Equal),
    {
        let mut lo: usize = 0;
        let mut hi: usize = self.items.len();
        while lo < hi
            invariant
                0 <= lo <= hi <= self.items@.len(),
                laid_out(self.items@, id) ==> forall|i: int|
                    0 <= i < lo ==> (#[trigger] self.items@[i]).spec_comp_id(id) == Relation::Less,
                laid_out(self.items@, id) ==> forall|i: int|
                    hi <= i < self.items@.len() ==> (#[trigger] self.items@[i]).spec_comp_id(id)
                        == Relation::Greater,
            decreases hi - lo,
        {
            let mid = lo + (hi - lo) / 2;
            match self.items[mid].comp_id(&id) {
                Relation::Equal => {
                    return Some(&self.items[mid]);
                },
                Relation::Less => {
                    proof {
                        if laid_out(self.items@, id) {
                            assert forall|i: int| 0 <= i < mid + 1 implies (#[trigger] self.items@[
                                i
                            ]).spec_comp_id(id) == Relation::Less by {
                                assert(rank(self.items@[i].spec_comp_id(id)) <= rank(
                                    self.items@[mid as int].spec_comp_id(id),
                                ));
                            }
                        }
                    }
                    lo = mid + 1;
                },
                Relation::Greater => {
                    proof {
                        if laid_out(self.items@, id) {
                            assert forall|i: int| mid <= i < self.items@.len() implies (
                            #[trigger] self.items@[i]).spec_comp_id(id) == Relation::Greater by {
                                assert(rank(self.items@[mid as int].spec_comp_id(id)) <= rank(
                                    self.items@[i].spec_comp_id(id),
                                ));
                            }
                        }
                    }
                    hi = mid;
                },
            }
        }
        None
    }

    /// Moves the cursor past the last entry.
    pub fn reset_cursor(&mut self) -> (r: usize)
        ensures
            final(self).items == old(self).items,
            final(self).cursor == old(self).items@.len(),
            r == old(self).items@.len(),
    {
        self.cursor = self.items.len();
        self.cursor
    }

    /// Steps the cursor back and returns the entry before it, when at least two entries
    /// are before it.
    pub fn prev(&mut self) -> (r: Option<&T>)
        ensures
            final(self).items == old(self).items,
            final(self).cursor == if old(self).cursor > 0 {
                old(self).cursor - 1
            } else {
                0
            },
            (final(self).cursor > 1 && final(self).cursor <= old(self).items@.len()) ==> r
                == Some(&old(self).items@[final(self).cursor - 1]),
            !(final(self).cursor > 1 && final(self).cursor <= old(self).items@.len()) ==> r is None,
    {
        if self.cursor > 0 {
            self.cursor = self.cursor - 1;
        }
        if self.cursor > 1 && self.cursor <= self.items.len() {
            Some(&self.items[self.cursor - 1])
        } else {
            None
        }
    }

    /// Steps the cursor forward, up to the end, and returns the entry before it.
    pub fn next(&mut self) -> (r: Option<&T>)
        requires
            !(old(self).cursor == 0 && old(self).items@.len() == 0),
        ensures
            final(self).items == old(self).items,
            final(self).cursor == if old(self).cursor < old(self).items@.len() {
                old(self).cursor + 1
            } else {
                old(self).cursor as int
            },
            final(self).cursor <= old(self).items@.len() ==> r == Some(
                &old(self).items@[final(self).cursor - 1],
            ),
            final(self).cursor > old(self).items@.len() ==> r is None,
    {
        if self.cursor < self.items.len() {
            self.cursor = self.cursor + 1;
        }
        if self.cursor <= self.items.len() {
            Some(&self.items[self.cursor - 1])
        } else {
            None
        }
    }

    /// The entry right before the cursor.
    pub fn current(&self) -> (r: Option<&T>)
        ensures
            self.cursor == 0 || self.cursor > self.items@.len() ==> r is None,
            0 < self.cursor <= self.items@.len() ==> r == Some(&self.items@[self.cursor - 1]),
    {
        if self.cursor == 0 {
            return None;
        }
        if self.cursor <= self.items.len() {
            Some(&self.items[self.cursor - 1])
        } else {
            None
        }
    }

    /// Removes and returns the last entry; the cursor stays.
    pub fn pop(&mut self) -> (r: Option<T>)
        ensures
            final(self).cursor == old(self).cursor,
            old(self).items@.len() == 0 ==> r is None && final(self).items@ == old(self).items@,
            old(self).items@.len() > 0 ==> r == Some(old(self).items@.last()) && final(self).items@
                == old(self).items@.drop_last(),
    {
        self.items.pop()
    }

    /// The last entry.
    pub fn last(&self) -> (r: Option<&T>)
        ensures
            r == (if self.items@.len() == 0 { None } else { Some(&self.items@.last()) }),
    {
        if self.items.len() == 0 {
            None
        } else {
            Some(&self.items[self.items.len() - 1])
        }
    }

    /// The last entry, to be changed in place.
    pub fn last_mut(&mut self) -> (r: Option<&mut T>)
        ensures
            final(self).cursor == old(self).cursor,
            old(self).items@.len() == 0 ==> r is None && final(self).items@ == old(self).items@,
            old(self).items@.len() > 0 ==> r is Some && *r.unwrap() == old(self).items@.last()
                && final(self).items@ == old(self).items@.update(
                old(self).items@.len() - 1,
                *final(r.unwrap()),
            ),
    {
        self.items.as_mut_slice().last_mut()
    }

    /// The entries in order.
    pub fn changes(&self) -> (r: &[T])
        ensures
            r@ == self.items@,
    {
        self.items.as_slice()
    }

    /// Removes every entry; the cursor stays.
    pub fn clear(&mut self)
        ensures
            final(self).items@.len() == 0,
            final(self).cursor == old(self).cursor,
    {
        self.items.clear();
    }

    /// The entries in order.
    pub fn iter(&self) -> (r: &[T])
        ensures
            r@ == self.items@,
    {
        self.items.as_slice()
    }
}


/// What pushing `item` onto the stack `before` (an empty stack when there is none) makes:
/// the same stack when its last entry has an id with the same clock, else the item on top
/// with the cursor moved past it.
pub open spec fn pushed<T: WithId>(
    before: Option<ItemStackStore<T>>,
    after: ItemStackStore<T>,
    item: T,
) -> bool {
    let items = match before {
        Some(s) => s.items@,
        None => Seq::empty(),
    };
    let cursor: int = match before {
        Some(s) => s.cursor as int,
        None => 0,
    };
    if items.len() > 0 && items.last().spec_id().clock == item.spec_id().clock {
        after.items@ == items && after.cursor == cursor
    } else {
        after.items@ == items.push(item) && after.cursor == cursor + 1
    }
}

/// The same entries with the cursor at `cursor`.
pub open spec fn moved<T>(before: ItemStackStore<T>, after: ItemStackStore<T>, cursor: int) -> bool {
    after.items@ == before.items@ && after.cursor == cursor
}

/// The entry right before the cursor of a stack.
pub open spec fn current_of<T>(s: ItemStackStore<T>) -> Option<T> {
    if 0 < s.cursor <= s.items@.len() {
        Some(s.items@[s.cursor - 1])
    } else {
        None
    }
}

/// The entries of each client, each client with its own stack and cursor.
pub struct ClientStackStore<T> {
    pub map: HashMap<ClientId, ItemStackStore<T>>,
}

impl<T: WithId + IdComp> ClientStackStore<T> {
    pub fn new() -> (r: Self)
        ensures
            r.map@ == Map::<ClientId, ItemStackStore<T>>::empty(),
    {
        ClientStackStore { map: HashMap::new() }
    }

    /// Pushes the item onto the client's stack, made empty when the client has none.
    pub fn insert(&mut self, client_id: ClientId, item: T)
        requires
            old(self).map@.contains_key(client_id) ==> old(self).map@[client_id].cursor < usize::MAX,
        ensures
            final(self).map@ == old(self).map@.insert(client_id, final(self).map@[client_id]),
            pushed(old(self).map@.get(client_id), final(self).map@[client_id], item),
    {
        broadcast use vstd::std_specs::hash::group_hash_axioms;

        let ghost before = old(self).map@.get(client_id);
        let mut entry = match self.map.remove(&client_id) {
            Some(entry) => entry,
            None => ItemStackStore::new(),
        };
        let ghost start = entry;
        assert(start.items@ == match before {
            Some(s) => s.items@,
            None => Seq::<T>::empty(),
        });
        entry.push(item);
        self.map.insert(client_id, entry);
        assert(self.map@[client_id] == entry);
    }

    /// Moves the client's cursor past its last entry.
    pub fn reset_cursor(&mut self, client_id: &ClientId)
        ensures
            !old(self).map@.contains_key(*client_id) ==> final(self).map@ == old(self).map@,
            old(self).map@.contains_key(*client_id) ==> final(self).map@ == old(self).map@.insert(
                *client_id,
                final(self).map@[*client_id],
            ) && moved(
                old(self).map@[*client_id],
                final(self).map@[*client_id],
                old(self).map@[*client_id].items@.len() as int,
            ),
    {
        broadcast use vstd::std_specs::hash::group_hash_axioms;

        if let Some(mut entry) = self.map.remove(client_id) {
            entry.reset_cursor();
            self.map.insert(*client_id, entry);
        } else {
            assert(self.map@ =~= old(self).map@);
        }
    }

    /// An entry of the id's client that covers the id.
    pub fn find(&self, id: Id) -> (r: Option<&T>)
        ensures
            r matches Some(x) ==> self.map@.contains_key(id.client) && self.map@[id.client].items@.contains(*x)
                && x.spec_comp_id(id) == Relation::Equal,
            r is None && self.map@.contains_key(id.client) && laid_out(self.map@[id.client].items@, id)
                ==> !(exists|i: int|
                0 <= i < self.map@[id.client].items@.len()
                    && (#[trigger] self.map@[id.client].items@[i]).spec_comp_id(id) == Relation::Equal),
    {
        broadcast use vstd::std_specs::hash::group_hash_axioms;

        match self.map.get(&id.client) {
            Some(store) => store.find(id),
            None => None,
        }
    }

    /// Steps the client's cursor back, see `ItemStackStore::prev`.
    pub fn prev(&mut self, client_id: ClientId) -> (r: Option<&T>)
        ensures
            !old(self).map@.contains_key(client_id) ==> final(self).map@ == old(self).map@ && r is None,
            old(self).map@.contains_key(client_id) ==> {
                let s = old(self).map@[client_id];
                let t = final(self).map@[client_id];
                &&& final(self).map@ == old(self).map@.insert(client_id, t)
                &&& moved(s, t, if s.cursor > 0 { s.cursor - 1 } else { 0 })
                &&& r == (if 1 < t.cursor <= s.items@.len() {
                    Some(&s.items@[t.cursor - 1])
                } else {
                    None
                })
            },
    {
        broadcast use vstd::std_specs::hash::group_hash_axioms;

        if let Some(mut entry) = self.map.remove(&client_id) {
            let ghost s = entry;
            entry.prev();
            let back = entry.cursor > 1;
            self.map.insert(client_id, entry);
            match self.map.get(&client_id) {
                Some(e) => {
                    if back {
                        e.current()
                    } else {
                        None
                    }
                },
                None => None,
            }
        } else {
            assert(self.map@ =~= old(self).map@);
            None
        }
    }

    /// Steps the client's cursor forward, see `ItemStackStore::next`.
    pub fn next(&mut self, client_id: ClientId) -> (r: Option<&T>)
        requires
            old(self).map@.contains_key(client_id) ==> !(old(self).map@[client_id].cursor == 0
                && old(self).map@[client_id].items@.len() == 0),
        ensures
            !old(self).map@.contains_key(client_id) ==> final(self).map@ == old(self).map@ && r is None,
            old(self).map@.contains_key(client_id) ==> {
                let s = old(self).map@[client_id];
                let t = final(self).map@[client_id];
                &&& final(self).map@ == old(self).map@.insert(client_id, t)
                &&& moved(
                    s,
                    t,
                    if s.cursor < s.items@.len() {
                        s.cursor + 1
                    } else {
                        s.cursor as int
                    },
                )
                &&& r == (if t.cursor <= s.items@.len() {
                    Some(&s.items@[t.cursor - 1])
                } else {
                    None
                })
            },
    {
        broadcast use vstd::std_specs::hash::group_hash_axioms;

        if let Some(mut entry) = self.map.remove(&client_id) {
            entry.next();
            self.map.insert(client_id, entry);
            match self.map.get(&client_id) {
                Some(e) => e.current(),
                None => None,
            }
        } else {
            assert(self.map@ =~= old(self).map@);
            None
        }
    }

    /// The client's cursor.
    pub fn cursor(&self, client_id: ClientId) -> (r: Option<usize>)
        ensures
            r == (if self.map@.contains_key(client_id) {
                Some(self.map@[client_id].cursor)
            } else {
                None
            }),
    {
        broadcast use vstd::std_specs::hash::group_hash_axioms;

        match self.map.get(&client_id) {
            Some(store) => Some(store.cursor),
            None => None,
        }
    }

    /// The client's entry right before a given cursor.
    pub fn at_cursor(&self, client_id: ClientId, cursor: usize) -> (r: Option<&T>)
        requires
            self.map@.contains_key(client_id) && cursor <= self.map@[client_id].items@.len() ==> cursor
                >= 1,
        ensures
            r == (if self.map@.contains_key(client_id) && cursor <= self.map@[client_id].items@.len() {
                Some(&self.map@[client_id].items@[cursor - 1])
            } else {
                None
            }),
    {
        broadcast use vstd::std_specs::hash::group_hash_axioms;

        match self.map.get(&client_id) {
            Some(store) => {
                if cursor <= store.items.len() {
                    Some(&store.items[cursor - 1])
                } else {
                    None
                }
            },
            None => None,
        }
    }

    /// The client's entry right before its cursor.
    pub fn current(&self, client_id: ClientId) -> (r: Option<&T>)
        ensures
            r == (if self.map@.contains_key(client_id) && current_of(self.map@[client_id]) is Some {
                Some(&current_of(self.map@[client_id])->0)
            } else {
                None
            }),
    {
        broadcast use vstd::std_specs::hash::group_hash_axioms;

        match self.map.get(&client_id) {
            Some(store) => store.current(),
            None => None,
        }
    }

    /// Removes and returns the client's last entry.
    pub fn pop(&mut self, client_id: ClientId) -> (r: Option<T>)
        ensures
            !old(self).map@.contains_key(client_id) ==> final(self).map@ == old(self).map@ && r is None,
            old(self).map@.contains_key(client_id) ==> {
                let s = old(self).map@[client_id];
                let t = final(self).map@[client_id];
                &&& final(self).map@ == old(self).map@.insert(client_id, t)
                &&& t.cursor == s.cursor
                &&& s.items@.len() == 0 ==> r is None && t.items@ == s.items@
                &&& s.items@.len() > 0 ==> r == Some(s.items@.last()) && t.items@ == s.items@.drop_last()
            },
    {
        broadcast use vstd::std_specs::hash::group_hash_axioms;

        if let Some(mut entry) = self.map.remove(&client_id) {
            let r = entry.pop();
            self.map.insert(client_id, entry);
            r
        } else {
            assert(self.map@ =~= old(self).map@);
            None
        }
    }

    /// The client's last entry.
    pub fn last(&self, client_id: &ClientId) -> (r: Option<&T>)
        ensures
            r == (if self.map@.contains_key(*client_id) && self.map@[*client_id].items@.len() > 0 {
                Some(&self.map@[*client_id].items@.last())
            } else {
                None
            }),
    {
        broadcast use vstd::std_specs::hash::group_hash_axioms;

        match self.map.get(client_id) {
            Some(store) => store.last(),
            None => None,
        }
    }

    /// Moves the client's cursor past its last entry.
    pub fn reset(&mut self, client_id: ClientId)
        ensures
            !old(self).map@.contains_key(client_id) ==> final(self).map@ == old(self).map@,
            old(self).map@.contains_key(client_id) ==> final(self).map@ == old(self).map@.insert(
                client_id,
                final(self).map@[client_id],
            ) && moved(
                old(self).map@[client_id],
                final(self).map@[client_id],
                old(self).map@[client_id].items@.len() as int,
            ),
    {
        self.reset_cursor(&client_id);
    }

    /// The client's entries in order.
    pub fn changes(&self, client_id: ClientId) -> (r: Option<&[T]>)
        ensures
            r matches Some(v) ==> self.map@.contains_key(client_id) && v@ == self.map@[client_id].items@,
            r is None ==> !self.map@.contains_key(client_id),
    {
        broadcast use vstd::std_specs::hash::group_hash_axioms;

        match self.map.get(&client_id) {
            Some(store) => Some(store.changes()),
            None => None,
        }
    }

    /// Removes every entry of the client; its cursor stays.
    pub fn clear(&mut self, client_id: ClientId)
        ensures
            !old(self).map@.contains_key(client_id) ==> final(self).map@ == old(self).map@,
            old(self).map@.contains_key(client_id) ==> final(self).map@ == old(self).map@.insert(
                client_id,
                final(self).map@[client_id],
            ) && final(self).map@[client_id].items@.len() == 0 && final(self).map@[client_id].cursor
                == old(self).map@[client_id].cursor,
    {
        broadcast use vstd::std_specs::hash::group_hash_axioms;

        if let Some(mut entry) = self.map.remove(&client_id) {
            entry.clear();
            self.map.insert(client_id, entry);
        } else {
            assert(self.map@ =~= old(self).map@);
        }
    }
}

} // verus!
