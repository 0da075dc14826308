use crate::id::Id;
use crate::sorted::sorted32;
use vstd::prelude::*;

verus! {

/// The clocks seen from each client, indexed by client id.
#[derive(Debug, Default, Clone, PartialEq, Eq)]
pub struct ClientIdStore {
    pub items: Vec<Vec<u32>>,
}

impl ClientIdStore {
    pub fn new() -> (r: Self)
        ensures
            r.items@.len() == 0,
    {
        Self { items: Vec::new() }
    }

    /// Records the clock of an id under its client, growing the table to reach it.
    pub fn insert(&mut self, id: Id)
        requires
            (id.client as int) < usize::MAX,
        ensures
            final(self).items@.len() == if old(self).items@.len() <= id.client {
                id.client + 1
            } else {
                old(self).items@.len() as int
            },
            forall|c: int|
                0 <= c < final(self).items@.len() && c != id.client ==> (#[trigger] final(self).items@[c])@ == if c < old(self).items@.len() {
                    old(self).items@[c]@
                } else {
                    Seq::<u32>::empty()
                },
            final(self).items@[id.client as int]@ == (if id.client < old(self).items@.len() {
                old(self).items@[id.client as int]@
            } else {
                Seq::<u32>::empty()
            }).push(id.clock),
    {
        let client = id.client as usize;
        while self.items.len() <= client
            invariant
                client < usize::MAX,
                client == id.client,
                old(self).items@.len() <= self.items@.len(),
                self.items@.len() <= if old(self).items@.len() <= client {
                    client + 1
                } else {
                    old(self).items@.len() as int
                },
                forall|c: int|
                    0 <= c < self.items@.len() ==> (#[trigger] self.items@[c])@ == if c
                        < old(self).items@.len() {
                        old(self).items@[c]@
                    } else {
                        Seq::<u32>::empty()
                    },
            decreases client + 1 - self.items@.len(),
        {
            self.items.push(Vec::new());
        }
        let mut ids = self.items.remove(client);
        ids.push(id.clock);
        self.items.insert(client, ids);
    }

    /// Whether the clock of the id is among those recorded for its client; the clocks are
    /// searched by halving, so they are found when recorded in increasing order.
    pub fn contains(&self, id: &Id) -> (r: bool)
        requires
            forall|c: int| 0 <= c < self.items@.len() ==> (#[trigger] self.items@[c])@.len() <= 0x4000_0000,
        ensures
            r ==> (id.client as int) < self.items@.len() && self.items@[id.client as int]@.contains(id.clock),
            (id.client as int) < self.items@.len() && sorted32(self.items@[id.client as int]@)
                && self.items@[id.client as int]@.contains(id.clock) ==> r,
    {
        let client = id.client as usize;
        if client < self.items.len() {
            find_index(self.items[client].as_slice(), &id.clock).is_some()
        } else {
            false
        }
    }

    /// Forgets every recorded clock, keeping the table's clients.
    pub fn clear(&mut self)
        ensures
            final(self).items@.len() == old(self).items@.len(),
            forall|c: int| 0 <= c < final(self).items@.len() ==> (#[trigger] final(self).items@[c])@.len() == 0,
    {
        let n = self.items.len();
        let mut i: usize = 0;
        while i < n
            invariant
                n == self.items@.len(),
                n == old(self).items@.len(),
                i <= n,
                forall|c: int| 0 <= c < i ==> (#[trigger] self.items@[c])@.len() == 0,
            decreases n - i,
        {
            let mut ids = self.items.remove(i);
            ids.clear();
            self.items.insert(i, ids);
            i = i + 1;
        }
    }
}

/// Searches `arr` for `find` by halving, with signed 32-bit bounds; finds it when `arr`
/// is sorted.
pub fn find_index(arr: &[u32], find: &u32) -> (r: Option<usize>)
    requires
        arr@.len() <= 0x4000_0000,
    ensures
        r matches Some(i) ==> i < arr@.len() && arr@[i as int] == *find,
        sorted32(arr@) && arr@.contains(*find) ==> r is Some,
{
    let length = arr.len() as i32;
    if length == 0 {
        return None;
    }
    let mut half: i32 = length / 2;
    let mut hind: i32 = length - 1;
    let mut lind: i32 = 0;
    let mut current: u32 = arr[half as usize];
    while lind <= hind
        invariant
            length == arr@.len(),
            0 < length <= 0x4000_0000,
            0 <= lind <= length,
            -1 <= hind < length,
            lind <= hind + 1,
            0 <= half < length,
            lind <= hind ==> lind <= half <= hind,
            current == arr@[half as int],
            sorted32(arr@) && arr@.contains(*find) ==> exists|k: int|
                lind <= k <= hind && arr@[k] == *find,
        decreases hind + 1 - lind,
    {
        if current == *find {
            return Some(half as usize);
        } else if current < *find {
            proof {
                if sorted32(arr@) && arr@.contains(*find) {
                    let k = choose|k: int| lind <= k <= hind && arr@[k] == *find;
                    if k <= half {
                        assert(arr@[k] <= arr@[half as int]);
                    }
                }
            }
            lind = half + 1;
        } else {
            proof {
                if sorted32(arr@) && arr@.contains(*find) {
                    let k = choose|k: int| lind <= k <= hind && arr@[k] == *find;
                    if k >= half {
                        assert(arr@[half as int] <= arr@[k]);
                    }
                }
            }
            hind = half - 1;
        }
        half = (hind + lind) / 2;
        current = arr[half as usize];
    }
    None
}

} // verus!
