use crate::client::Client;
use crate::doc::hyphenated;
use crate::id::Id;
use crate::item::{splits_at, Content, ItemData};
use vstd::utf8::{encode_utf8, is_char_boundary};
use crate::text::{decimal, decimal_text};
use vstd::prelude::*;

verus! {

/// The most conflicting items an integration looks at before it gives up.
pub const SCAN_LIMIT: u32 = 10_000_000;

/// An item of a list as integration reads and links it: its id, the ids of the items it was
/// inserted between (its origins), the id of its parent, and its current neighbours, by
/// their places in the list's arena.
#[derive(Clone, Copy, Debug, PartialEq, Eq)]
pub struct ListItem {
    pub id: Id,
    pub left_id: Option<Id>,
    pub right_id: Option<Id>,
    pub parent_id: Option<Id>,
    pub left: Option<usize>,
    pub right: Option<usize>,
}

/// The items of one parent, linked from `start` to `end` through their neighbours.
#[derive(Debug)]
pub struct ItemList {
    pub parent: Id,
    pub items: Vec<ListItem>,
    pub start: Option<usize>,
    pub end: Option<usize>,
}

/// A place in an arena of `n` items, or none.
pub open spec fn in_arena(p: Option<usize>, n: nat) -> bool {
    p matches Some(i) ==> i < n
}

impl ItemList {
    /// Every link of the list, and its start and end, is a place in its arena.
    pub open spec fn wf(&self) -> bool {
        &&& in_arena(self.start, self.items@.len())
        &&& in_arena(self.end, self.items@.len())
        &&& forall|i: int|
            0 <= i < self.items@.len() ==> in_arena((#[trigger] self.items@[i]).left, self.items@.len())
                && in_arena(self.items@[i].right, self.items@.len())
    }

    /// The clients that ordering `item` against the items with its left origin may look up
    /// are in `clients`: those of the items of other clients with that origin, and its own.
    pub open spec fn clients_known(&self, item: int, clients: Seq<Client>) -> bool {
        forall|i: int|
            0 <= i < self.items@.len() && (#[trigger] self.items@[i]).left_id
                == self.items@[item].left_id && self.items@[i].id.client
                != self.items@[item].id.client ==> self.items@[i].id.client < clients.len()
                && self.items@[item].id.client < clients.len()
    }
}

/// What hashing a text with std's default hasher gives.
pub uninterp spec fn text_hash(s: Seq<char>) -> u64;

/// Hashes a text with `std::hash::DefaultHasher`, through `BuildHasher::hash_one` on a
/// default builder of that hasher; every such hasher starts from the same state, so the
/// hash is a function of the text.
#[verifier::external_body]
fn calculate_hash(s: &String) -> (r: u64)
    ensures
        r == text_hash(s@),
{
    std::hash::BuildHasher::hash_one(
        &std::hash::BuildHasherDefault::<std::hash::DefaultHasher>::default(),
        s,
    )
}

/// The text an id of a client is hashed by: the client's UUID text, then the clock.
pub open spec fn id_text(client: Client, clock: u32) -> Seq<char> {
    hyphenated(client.bytes@) + decimal(clock)
}

/// Whether `a` orders after `b`: by clock within one client, and by the hashes of their
/// texts across clients.
pub open spec fn id_after(a: Id, b: Id, clients: Seq<Client>) -> bool {
    if a.client != b.client {
        text_hash(id_text(clients[a.client as int], a.clock)) > text_hash(
            id_text(clients[b.client as int], b.clock),
        )
    } else {
        a.clock > b.clock
    }
}

/// The hash of an id of a client.
pub fn id_hash(client: &Client, clock: u32) -> (r: u64)
    ensures
        r == text_hash(id_text(*client, clock)),
{
    let mut s = client.to_string();
    s.append(decimal_text(clock).as_str());
    calculate_hash(&s)
}

/// Whether `a` orders after `b`; `clients` gives the client of each client id.
pub fn compare_after(a: &Id, b: &Id, clients: &Vec<Client>) -> (r: bool)
    requires
        a.client != b.client ==> a.client < clients@.len() && b.client < clients@.len(),
    ensures
        r == id_after(*a, *b, clients@),
{
    if a.client != b.client {
        let ha = id_hash(&clients[a.client as usize], a.clock);
        let hb = id_hash(&clients[b.client as usize], b.clock);
        ha > hb
    } else {
        a.clock > b.clock
    }
}

/// The id of the item at a place, if any.
pub open spec fn id_at(items: Seq<ListItem>, p: Option<usize>) -> Option<Id> {
    match p {
        Some(i) => Some(items[i as int].id),
        None => None,
    }
}

/// Whether a set of ids, kept as a sequence, holds an id.
pub open spec fn holds(s: Seq<Id>, id: Id) -> bool {
    s.contains(id)
}

/// Where the scan for conflicting items starts: right of the left origin, or at the start,
/// when the item is not already between its origins; nowhere otherwise.
pub open spec fn first_conflict(
    items: Seq<ListItem>,
    start: Option<usize>,
    item: int,
    left: Option<usize>,
    right: Option<usize>,
) -> Option<usize> {
    let left_conflict = id_at(items, items[item].left) != id_at(items, left);
    let right_conflict = id_at(items, items[item].right) != id_at(items, right);
    if (left is None && right is None) || right_conflict || left_conflict {
        match left {
            Some(l) => items[l as int].right,
            None => start,
        }
    } else {
        None
    }
}

/// The scan over the conflicting items, from `conflict` to the right origin: the left
/// neighbour the item ends up after and the number of items looked at, or an error when
/// more than `SCAN_LIMIT` items are looked at. `seen` holds the ids looked at, `since` those
/// looked at since the left neighbour last moved.
pub open spec fn scan(
    items: Seq<ListItem>,
    item: int,
    right: Option<usize>,
    clients: Seq<Client>,
    conflict: Option<usize>,
    left: Option<usize>,
    since: Seq<Id>,
    seen: Seq<Id>,
    counter: nat,
) -> Result<(Option<usize>, nat), ()>
    decreases SCAN_LIMIT + 1 - counter,
{
    match conflict {
        None => Ok((left, counter)),
        Some(c) => if conflict == right {
            Ok((left, counter))
        } else if counter + 1 > SCAN_LIMIT {
            Err(())
        } else {
            let n = counter + 1;
            let cid = items[c as int].id;
            let seen1 = seen.push(cid);
            let since1 = since.push(cid);
            let cl = items[c as int].left_id;
            let next = items[c as int].right;
            if cl == items[item].left_id {
                if id_after(items[item].id, cid, clients) {
                    scan(items, item, right, clients, next, Some(c), Seq::empty(), seen1, n)
                } else if items[c as int].right_id == items[item].right_id {
                    Ok((left, n))
                } else {
                    scan(items, item, right, clients, next, left, since1, seen1, n)
                }
            } else if cl is Some && holds(seen1, cl->0) {
                if !holds(since1, cl->0) {
                    scan(items, item, right, clients, next, Some(c), Seq::empty(), seen1, n)
                } else {
                    scan(items, item, right, clients, next, left, since1, seen1, n)
                }
            } else {
                Ok((left, n))
            }
        },
    }
}

/// The item with another right neighbour.
pub open spec fn with_right(x: ListItem, r: Option<usize>) -> ListItem {
    ListItem { right: r, ..x }
}

/// The item with another left neighbour.
pub open spec fn with_left(x: ListItem, l: Option<usize>) -> ListItem {
    ListItem { left: l, ..x }
}

/// The item with another parent.
pub open spec fn with_parent(x: ListItem, p: Option<Id>) -> ListItem {
    ListItem { parent_id: p, ..x }
}

/// The items once `item` is linked right after `prev`, before the item that followed it,
/// with the parent of `prev`.
pub open spec fn linked_after(items: Seq<ListItem>, prev: int, item: int) -> Seq<ListItem> {
    let next = items[prev].right;
    let parent = items[prev].parent_id;
    let s1 = items.update(prev, with_right(items[prev], Some(item as usize)));
    let s2 = match next {
        Some(n) => {
            let t = s1.update(n as int, with_left(s1[n as int], Some(item as usize)));
            t.update(item, with_right(t[item], Some(n)))
        },
        None => s1,
    };
    let s3 = s2.update(item, with_left(s2[item], Some(prev as usize)));
    s3.update(item, with_parent(s3[item], parent))
}

/// The items once `item` is linked at the start, before the item that started the list,
/// with the list's parent.
pub open spec fn linked_start(items: Seq<ListItem>, start: Option<usize>, item: int, parent: Id) -> Seq<
    ListItem,
> {
    let s1 = match start {
        Some(s) => {
            let t = items.update(s as int, with_left(items[s as int], Some(item as usize)));
            t.update(item, with_right(t[item], Some(s)))
        },
        None => items,
    };
    s1.update(item, with_parent(s1[item], Some(parent)))
}

impl ItemList {
    /// Links the item right after `prev`, before the item that followed `prev`.
    fn link_after(&mut self, prev: usize, item: usize)
        requires
            old(self).wf(),
            prev < old(self).items@.len(),
            item < old(self).items@.len(),
        ensures
            final(self).wf(),
            final(self).items@ == linked_after(old(self).items@, prev as int, item as int),
            final(self).parent == old(self).parent,
            final(self).start == old(self).start,
            final(self).end == old(self).end,
    {
        let next = self.items[prev].right;
        let parent = self.items[prev].parent_id;
        let mut p = self.items[prev];
        p.right = Some(item);
        self.items.set(prev, p);
        if let Some(n) = next {
            let mut x = self.items[n];
            x.left = Some(item);
            self.items.set(n, x);
            let mut y = self.items[item];
            y.right = Some(n);
            self.items.set(item, y);
        }
        let mut z = self.items[item];
        z.left = Some(prev);
        self.items.set(item, z);
        let mut w = self.items[item];
        w.parent_id = parent;
        self.items.set(item, w);
        proof {
            assert(self.items@ =~= linked_after(old(self).items@, prev as int, item as int));
        }
    }

    /// Links the item at the start of the list, before the item that started it.
    fn link_start(&mut self, item: usize)
        requires
            old(self).wf(),
            item < old(self).items@.len(),
        ensures
            final(self).wf(),
            final(self).items@ == linked_start(
                old(self).items@,
                old(self).start,
                item as int,
                old(self).parent,
            ),
            final(self).parent == old(self).parent,
            final(self).start == Some(item),
            final(self).end == old(self).end,
    {
        if let Some(s) = self.start {
            let mut x = self.items[s];
            x.left = Some(item);
            self.items.set(s, x);
            let mut y = self.items[item];
            y.right = Some(s);
            self.items.set(item, y);
        }
        self.start = Some(item);
        let mut w = self.items[item];
        w.parent_id = Some(self.parent);
        self.items.set(item, w);
        proof {
            assert(self.items@ =~= linked_start(
                old(self).items@,
                old(self).start,
                item as int,
                old(self).parent,
            ));
        }
    }
}

/// Whether a set of ids, kept as a sequence, holds an id.
fn holds_id(s: &Vec<Id>, id: &Id) -> (r: bool)
    ensures
        r == holds(s@, *id),
{
    let mut i: usize = 0;
    while i < s.len()
        invariant
            i <= s@.len(),
            forall|j: int| 0 <= j < i ==> s@[j] != *id,
        decreases s@.len() - i,
    {
        if s[i].client == id.client && s[i].clock == id.clock {
            proof {
                assert(s@[i as int] == *id);
            }
            return true;
        }
        i = i + 1;
    }
    false
}

/// The id of the item at a place, if any.
fn id_of(list: &ItemList, p: Option<usize>) -> (r: Option<Id>)
    requires
        list.wf(),
        in_arena(p, list.items@.len()),
    ensures
        r == id_at(list.items@, p),
{
    match p {
        Some(i) => Some(list.items[i].id),
        None => None,
    }
}

/// Whether two optional ids are the same id.
fn same_id(a: Option<Id>, b: Option<Id>) -> (r: bool)
    ensures
        r == (a == b),
{
    match (a, b) {
        (Some(x), Some(y)) => x.client == y.client && x.clock == y.clock,
        (None, None) => true,
        _ => false,
    }
}

/// The items once `item` is linked after the left neighbour the scan gave, or at the start.
pub open spec fn placed_items(
    items: Seq<ListItem>,
    start: Option<usize>,
    parent: Id,
    item: int,
    left: Option<usize>,
) -> Seq<ListItem> {
    match left {
        Some(p) => linked_after(items, p as int, item),
        None => linked_start(items, start, item, parent),
    }
}

/// The scan an integration makes, from the start its origins give.
pub open spec fn integration_scan(
    items: Seq<ListItem>,
    start: Option<usize>,
    item: int,
    left: Option<usize>,
    right: Option<usize>,
    clients: Seq<Client>,
) -> Result<(Option<usize>, nat), ()> {
    scan(
        items,
        item,
        right,
        clients,
        first_conflict(items, start, item, left, right),
        left,
        Seq::empty(),
        Seq::empty(),
        0,
    )
}

/// Whether two optional places are the same place.
fn same_place(a: Option<usize>, b: Option<usize>) -> (r: bool)
    ensures
        r == (a == b),
{
    match (a, b) {
        (Some(x), Some(y)) => x == y,
        (None, None) => true,
        _ => false,
    }
}

/// Integrates an item into the list between the items it was inserted between, `left` and
/// `right`, resolving the conflict with items inserted concurrently at the same place: the
/// scan over them decides the left neighbour the item is linked after (or the start), and the
/// item becomes the end when nothing follows it. Returns that left neighbour and the number
/// of conflicting items looked at; gives up with an error, leaving the list as it was, when
/// that number would pass `SCAN_LIMIT`. `clients` gives the client of each client id.
pub fn integrate(
    list: &mut ItemList,
    item: usize,
    left: Option<usize>,
    right: Option<usize>,
    clients: &Vec<Client>,
) -> (r: Result<(Option<usize>, u32), String>)
    requires
        old(list).wf(),
        item < old(list).items@.len(),
        in_arena(left, old(list).items@.len()),
        in_arena(right, old(list).items@.len()),
        old(list).clients_known(item as int, clients@),
    ensures
        final(list).wf(),
        final(list).parent == old(list).parent,
        (r is Err) == (integration_scan(
            old(list).items@,
            old(list).start,
            item as int,
            left,
            right,
            clients@,
        ) is Err),
        r matches Err(e) ==> e@ == "infinite loop"@ && final(list).items@ == old(list).items@
            && final(list).start == old(list).start && final(list).end == old(list).end,
        r matches Ok(placed) ==> ({
            let items = placed_items(
                old(list).items@,
                old(list).start,
                old(list).parent,
                item as int,
                placed.0,
            );
            &&& integration_scan(
                old(list).items@,
                old(list).start,
                item as int,
                left,
                right,
                clients@,
            ) == Ok::<(Option<usize>, nat), ()>((placed.0, placed.1 as nat))
            &&& final(list).items@ == items
            &&& final(list).start == if placed.0 is None {
                Some(item)
            } else {
                old(list).start
            }
            &&& final(list).end == if items[item as int].right is None {
                Some(item)
            } else {
                old(list).end
            }
            &&& (linked_both_ways(old(list).items@, -1) && old(list).items@[item as int].left is None
                && old(list).items@[item as int].right is None && placed.0 != Some(item) && (
            placed.0 is None ==> (old(list).start is Some ==> old(list).start != Some(item)
                && old(list).items@[old(list).start->0 as int].left is None))) ==> linked_both_ways(
                final(list).items@,
                -1,
            )
        }),
{
    let len0 = list.items.len();
    let ghost items = list.items@;
    let ghost s0 = integration_scan(items, list.start, item as int, left, right, clients@);
    let me = list.items[item];
    let left_conflict = !same_id(id_of(list, me.left), id_of(list, left));
    let right_conflict = !same_id(id_of(list, me.right), id_of(list, right));
    let mut conflict: Option<usize> = None;
    if (left.is_none() && right.is_none()) || right_conflict || left_conflict {
        conflict = match left {
            Some(l) => list.items[l].right,
            None => list.start,
        };
    }
    let mut after = left;
    let mut counter: u32 = 0;
    let mut since: Vec<Id> = Vec::new();
    let mut seen: Vec<Id> = Vec::new();
    loop
        invariant_except_break
            list.items@ == items,
            items == old(list).items@,
            list.start == old(list).start,
            list.end == old(list).end,
            list.parent == old(list).parent,
            s0 == integration_scan(items, old(list).start, item as int, left, right, clients@),
            list.wf(),
            list.clients_known(item as int, clients@),
            item < items.len(),
            in_arena(conflict, items.len()),
            in_arena(after, items.len()),
            counter <= SCAN_LIMIT,
            me == items[item as int],
            scan(items, item as int, right, clients@, conflict, after, since@, seen@, counter as nat)
                == s0,
        ensures
            list.items@ == items,
            list.start == old(list).start,
            list.end == old(list).end,
            list.parent == old(list).parent,
            s0 == integration_scan(items, old(list).start, item as int, left, right, clients@),
            list.wf(),
            in_arena(after, items.len()),
            s0 == Ok::<(Option<usize>, nat), ()>((after, counter as nat)),
        decreases SCAN_LIMIT - counter,
    {
        let c = match conflict {
            Some(c) => c,
            None => {
                break;
            },
        };
        if same_place(conflict, right) {
            break;
        }
        let ghost before = counter;
        counter = counter + 1;
        if counter > SCAN_LIMIT {
            proof {
                reveal_strlit("infinite loop");
                assert(scan(items, item as int, right, clients@, conflict, after, since@, seen@, before as nat)
                    is Err);
            }
            return Err(String::from_str("infinite loop"));
        }
        let x = list.items[c];
        seen.push(x.id);
        since.push(x.id);
        if same_id(x.left_id, me.left_id) {
            if compare_after(&me.id, &x.id, clients) {
                after = Some(c);
                since = Vec::new();
            } else if same_id(x.right_id, me.right_id) {
                break;
            }
        } else if x.left_id.is_some() && holds_id(&seen, &x.left_id.unwrap()) {
            if !holds_id(&since, &x.left_id.unwrap()) {
                after = Some(c);
                since = Vec::new();
            }
        } else {
            break;
        }
        conflict = x.right;
    }
    let ghost st0 = list.start;
    match after {
        Some(p) => list.link_after(p, item),
        None => list.link_start(item),
    }
    proof {
        assert(items.len() == len0);
        if linked_both_ways(items, -1) && items[item as int].left is None
            && items[item as int].right is None && after != Some(item) {
            match after {
                Some(p) => {
                    lemma_linked_after_keeps_links(items, p as int, item as int);
                },
                None => {
                    if st0 is Some ==> st0 != Some(item) && items[st0->0 as int].left is None {
                        lemma_linked_start_keeps_links(items, st0, item as int, list.parent);
                    }
                },
            }
        }
    }
    if list.items[item].right.is_none() {
        list.end = Some(item);
    }
    Ok((after, counter))
}

/// The items, and the start, once the item at `at` gives its place to the two items `a` and
/// `b`, added at the end of the arena and linked one after the other between the item's
/// neighbours; with no left neighbour, `a` starts the list.
pub open spec fn split_linked(
    items: Seq<ListItem>,
    start: Option<usize>,
    at: int,
    a: ListItem,
    b: ListItem,
) -> (Seq<ListItem>, Option<usize>) {
    let li = items.len() as int;
    let ri = li + 1;
    let s0 = items.push(a).push(b);
    let s1 = s0.update(li, with_right(s0[li], Some(ri as usize)));
    let s2 = s1.update(ri, with_left(s1[ri], Some(li as usize)));
    let (s4, st) = match items[at].left {
        Some(l) => {
            let s3 = s2.update(l as int, with_right(s2[l as int], Some(li as usize)));
            (s3.update(li, with_left(s3[li], Some(l))), start)
        },
        None => (s2, Some(li as usize)),
    };
    let s6 = match items[at].right {
        Some(r) => {
            let s5 = s4.update(r as int, with_left(s4[r as int], Some(ri as usize)));
            s5.update(ri, with_right(s5[ri], Some(r)))
        },
        None => s4,
    };
    (s6, st)
}

/// Puts the two halves `a` and `b` at the end of the arena, linked one after the other in the
/// place of the item at `at`, between its neighbours.
fn relink_split(list: &mut ItemList, at: usize, a: ListItem, b: ListItem)
    requires
        old(list).wf(),
        at < old(list).items@.len(),
        old(list).items@.len() + 2 <= usize::MAX,
        a.left is None && a.right is None,
        b.left is None && b.right is None,
    ensures
        final(list).wf(),
        final(list).parent == old(list).parent,
        final(list).end == old(list).end,
        (final(list).items@, final(list).start) == split_linked(
            old(list).items@,
            old(list).start,
            at as int,
            a,
            b,
        ),
{
    let n = list.items.len();
    let old_item = list.items[at];
    let mut a1 = a;
    a1.right = Some(n + 1);
    list.items.push(a1);
    let mut b1 = b;
    b1.left = Some(n);
    list.items.push(b1);
    match old_item.left {
        Some(l) => {
            let mut x = list.items[l];
            x.right = Some(n);
            list.items.set(l, x);
            let mut y = list.items[n];
            y.left = Some(l);
            list.items.set(n, y);
        },
        None => {
            list.start = Some(n);
        },
    }
    match old_item.right {
        Some(rt) => {
            let mut x = list.items[rt];
            x.left = Some(n + 1);
            list.items.set(rt, x);
            let mut y = list.items[n + 1];
            y.right = Some(rt);
            list.items.set(n + 1, y);
        },
        None => {},
    }
    proof {
        assert(list.items@ =~= split_linked(old(list).items@, old(list).start, at as int, a, b).0);
    }
}

/// Splits a string item of the list at `offset`: its data, `data`, is cut in two, and two
/// new items for the halves take its place between its neighbours (the left half starts the
/// list when the item had no left neighbour). Returns the places of the two halves.
#[verifier::rlimit(40)]
#[verifier::spinoff_prover]
pub fn split_item(list: &mut ItemList, at: usize, data: &ItemData, offset: u32) -> (r: Result<
    (usize, usize),
    String,
>)
    requires
        old(list).wf(),
        at < old(list).items@.len(),
        old(list).items@.len() + 2 <= usize::MAX,
        splits_at(data, offset),
        data.content matches Content::String(s) ==> 1 <= encode_utf8(s@).len() <= u32::MAX
            && data.id.clock + encode_utf8(s@).len() <= u32::MAX && is_char_boundary(
            encode_utf8(s@),
            offset as int,
        ),
        data.content matches Content::Mark(m) ==> m.range.start <= m.range.end && m.range.end
            - m.range.start + 1 <= u32::MAX && data.id.clock + m.range.spec_size() <= u32::MAX,
    ensures
        final(list).wf(),
        final(list).parent == old(list).parent,
        final(list).end == old(list).end,
        r matches Ok(places) && places.0 == old(list).items@.len() && places.1 == old(
            list,
        ).items@.len() + 1,
        forall|rv: usize|
            old(list).items@[at as int].right == Some(rv) && rv != at ==> (#[trigger] final(list).items@[rv as int]).left == Some((old(list).items@.len() + 1) as usize),
        forall|lv: usize|
            old(list).items@[at as int].left == Some(lv) && lv != at ==> (#[trigger] final(list).items@[lv as int]).right == Some(old(list).items@.len() as usize),
        final(list).items@[old(list).items@.len() as int].right == Some(
            (old(list).items@.len() + 1) as usize,
        ),
        final(list).items@[old(list).items@.len() + 1int].left == Some(old(list).items@.len() as usize),
        old(list).items@[at as int].left is None ==> final(list).start == Some(
            old(list).items@.len() as usize,
        ),
        old(list).items@[at as int].left is Some ==> final(list).start == old(list).start,
        linked_both_ways(old(list).items@, -1) && old(list).items@[at as int].left != Some(at)
            && old(list).items@[at as int].right != Some(at) ==> linked_both_ways(
            final(list).items@,
            at as int,
        ),
        ({
            let mid = Id { client: data.id.client, clock: (data.id.clock + offset) as u32 };
            let a = (ListItem {
                id: data.id,
                left_id: data.left_id,
                right_id: Some(mid),
                parent_id: data.parent_id,
                left: None,
                right: None,
            });
            let b = (ListItem {
                id: mid,
                left_id: Some(Id { client: data.id.client, clock: (mid.clock - 1) as u32 }),
                right_id: data.right_id,
                parent_id: data.parent_id,
                left: None,
                right: None,
            });
            (final(list).items@, final(list).start) == split_linked(
                old(list).items@,
                old(list).start,
                at as int,
                a,
                b,
            )
        }),
{
    let parts = data.split(offset);
    let (ld, rd) = match parts {
        Ok(p) => p,
        Err(e) => return Err(e),
    };
    let a = ListItem {
        id: ld.id,
        left_id: ld.left_id,
        right_id: ld.right_id,
        parent_id: ld.parent_id,
        left: None,
        right: None,
    };
    let b = ListItem {
        id: rd.id,
        left_id: rd.left_id,
        right_id: rd.right_id,
        parent_id: rd.parent_id,
        left: None,
        right: None,
    };
    let n = list.items.len();
    relink_split(list, at, a, b);
    proof {
        lemma_split_ends(old(list).items@, old(list).start, at as int, a, b);
        if linked_both_ways(old(list).items@, -1) && old(list).items@[at as int].left != Some(at)
            && old(list).items@[at as int].right != Some(at) {
            lemma_split_keeps_links(old(list).items@, old(list).start, at as int, a, b);
        }
    }
    Ok((n, n + 1))
}

/// The client of a client id.
pub open spec fn client_of(clients: Seq<Client>, c: u32) -> Client {
    clients[c as int]
}

/// The hash an id is ordered by across clients: that of its client's UUID text and clock.
pub open spec fn id_key_hash(clients: Seq<Client>, id: Id) -> u64 {
    text_hash(id_text(client_of(clients, id.client), id.clock))
}

/// The text a range is hashed by: `(client, start)`, the client as its UUID text.
pub open spec fn range_text(client: Client, start: u32) -> Seq<char> {
    seq!['('] + hyphenated(client.bytes@) + seq![',', ' '] + decimal(start) + seq![')']
}

/// The hash a range is ordered by across clients.
pub open spec fn range_key_hash(clients: Seq<Client>, client: u32, start: u32) -> u64 {
    text_hash(range_text(client_of(clients, client), start))
}

/// The hash an id is ordered by across clients.
pub fn hash_of_id(id: &Id, clients: &Vec<Client>) -> (r: u64)
    requires
        id.client < clients@.len(),
    ensures
        r == id_key_hash(clients@, *id),
{
    id_hash(&clients[id.client as usize], id.clock)
}

/// The hash a range starting at `start` is ordered by across clients.
pub fn hash_of_range(client: u32, start: u32, clients: &Vec<Client>) -> (r: u64)
    requires
        client < clients@.len(),
    ensures
        r == range_key_hash(clients@, client, start),
{
    let mut s = String::from_str("(");
    s.append(clients[client as usize].to_string().as_str());
    s.append(", ");
    s.append(decimal_text(start).as_str());
    s.append(")");
    proof {
        reveal_strlit("(");
        reveal_strlit(", ");
        reveal_strlit(")");
        assert(s@ =~= range_text(clients@[client as int], start));
    }
    calculate_hash(&s)
}

/// The items, start and end an integration leaves when its scan succeeds; the list as it was
/// otherwise.
pub open spec fn integrated(
    st: (Seq<ListItem>, Option<usize>, Option<usize>),
    parent: Id,
    item: int,
    left: Option<usize>,
    right: Option<usize>,
    clients: Seq<Client>,
) -> (Seq<ListItem>, Option<usize>, Option<usize>) {
    match integration_scan(st.0, st.1, item, left, right, clients) {
        Ok(placed) => {
            let items = placed_items(st.0, st.1, parent, item, placed.0);
            (
                items,
                if placed.0 is None {
                    Some(item as usize)
                } else {
                    st.1
                },
                if items[item].right is None {
                    Some(item as usize)
                } else {
                    st.2
                },
            )
        },
        Err(_) => st,
    }
}

/// Convergence of two concurrent inserts: two items inserted after the same item, with no
/// right origin, end up in the same places, linked the same way, whichever is integrated
/// first, as long as the order of their ids is strict (their hashes differ when their
/// clients do).
pub proof fn lemma_concurrent_inserts_converge(
    st: (Seq<ListItem>, Option<usize>, Option<usize>),
    parent: Id,
    a: int,
    b: int,
    c: int,
    clients: Seq<Client>,
)
    requires
        st.0.len() <= usize::MAX,
        0 <= a < st.0.len(),
        0 <= b < st.0.len(),
        0 <= c < st.0.len(),
        a != b && a != c && b != c,
        st.0[a].right is None,
        st.0[b].left is None && st.0[b].right is None,
        st.0[c].left is None && st.0[c].right is None,
        st.0[b].left_id == Some(st.0[a].id) && st.0[c].left_id == Some(st.0[a].id),
        st.0[b].right_id is None && st.0[c].right_id is None,
        id_after(st.0[b].id, st.0[c].id, clients) != id_after(st.0[c].id, st.0[b].id, clients),
    ensures
        integrated(
            integrated(st, parent, b, Some(a as usize), None, clients),
            parent,
            c,
            Some(a as usize),
            None,
            clients,
        ) == integrated(
            integrated(st, parent, c, Some(a as usize), None, clients),
            parent,
            b,
            Some(a as usize),
            None,
            clients,
        ),
{
    let items = st.0;
    let au = a as usize;
    let bu = b as usize;
    let cu = c as usize;
    let e: Seq<Id> = Seq::empty();
    // each item integrated first goes right after `a`
    assert(first_conflict(items, st.1, b, Some(au), None) == None::<usize>);
    assert(first_conflict(items, st.1, c, Some(au), None) == None::<usize>);
    assert(integration_scan(items, st.1, b, Some(au), None, clients) == Ok::<
        (Option<usize>, nat),
        (),
    >((Some(au), 0)));
    assert(integration_scan(items, st.1, c, Some(au), None, clients) == Ok::<
        (Option<usize>, nat),
        (),
    >((Some(au), 0)));
    let s_b = linked_after(items, a, b);
    let s_c = linked_after(items, a, c);
    let st_b = integrated(st, parent, b, Some(au), None, clients);
    let st_c = integrated(st, parent, c, Some(au), None, clients);
    assert(st_b == (s_b, st.1, Some(bu)));
    assert(st_c == (s_c, st.1, Some(cu)));
    // the second item meets the first as its one conflict
    assert(first_conflict(s_b, st.1, c, Some(au), None) == Some(bu));
    assert(first_conflict(s_c, st.1, b, Some(au), None) == Some(cu));
    let cb = id_after(items[c].id, items[b].id, clients);
    if cb {
        assert(scan(s_b, c, None, clients, None, Some(bu), e, e.push(items[b].id), 1) == Ok::<
            (Option<usize>, nat),
            (),
        >((Some(bu), 1)));
        assert(integration_scan(s_b, st.1, c, Some(au), None, clients) == Ok::<
            (Option<usize>, nat),
            (),
        >((Some(bu), 1)));
        assert(integration_scan(s_c, st.1, b, Some(au), None, clients) == Ok::<
            (Option<usize>, nat),
            (),
        >((Some(au), 1)));
        assert(linked_after(s_b, b, c) =~= linked_after(s_c, a, b));
    } else {
        assert(scan(s_c, b, None, clients, None, Some(cu), e, e.push(items[c].id), 1) == Ok::<
            (Option<usize>, nat),
            (),
        >((Some(cu), 1)));
        assert(integration_scan(s_c, st.1, b, Some(au), None, clients) == Ok::<
            (Option<usize>, nat),
            (),
        >((Some(cu), 1)));
        assert(integration_scan(s_b, st.1, c, Some(au), None, clients) == Ok::<
            (Option<usize>, nat),
            (),
        >((Some(au), 1)));
        assert(linked_after(s_c, c, b) =~= linked_after(s_b, a, c));
    }
}

/// The list is linked both ways at every item but `skip`: an item's right neighbour has it as
/// its left neighbour, and its left neighbour has it as its right neighbour.
pub open spec fn linked_both_ways(items: Seq<ListItem>, skip: int) -> bool {
    forall|i: int|
        0 <= i < items.len() && i != skip ==> {
            &&& ((#[trigger] items[i]).right matches Some(j) ==> j < items.len() && items[j as int].left
                == Some(i as usize))
            &&& (items[i].left matches Some(j) ==> j < items.len() && items[j as int].right == Some(
                i as usize,
            ))
        }
}

/// Split link law: when an item of a list linked both ways gives its place to two halves,
/// the list stays linked both ways at every item but the one split: the left neighbour leads
/// to the left half, the left half to the right half, and the right half to the right
/// neighbour, each back and forth.
pub proof fn lemma_split_keeps_links(
    items: Seq<ListItem>,
    start: Option<usize>,
    at: int,
    a: ListItem,
    b: ListItem,
)
    requires
        linked_both_ways(items, -1),
        0 <= at < items.len(),
        items.len() + 2 <= usize::MAX,
        items[at].left != Some(at as usize),
        items[at].right != Some(at as usize),
        a.left is None && a.right is None,
        b.left is None && b.right is None,
    ensures
        linked_both_ways(split_linked(items, start, at, a, b).0, at),
{
    let n = items.len() as int;
    let t = split_linked(items, start, at, a, b).0;
    assert(t.len() == n + 2);
    let l = items[at].left;
    let r = items[at].right;
    assert(t[n].left == l && t[n].right == Some((n + 1) as usize));
    assert(t[n + 1].left == Some(n as usize) && t[n + 1].right == r);
    if let Some(lv) = l {
        assert(items[lv as int].right == Some(at as usize));
        assert(t[lv as int].right == Some(n as usize));
        assert(t[lv as int].left == items[lv as int].left || r == Some(lv));
    }
    if let Some(rv) = r {
        assert(items[rv as int].left == Some(at as usize));
        assert(t[rv as int].left == Some((n + 1) as usize));
    }
    assert forall|i: int| 0 <= i < t.len() && i != at implies {
        &&& ((#[trigger] t[i]).right matches Some(j) ==> j < t.len() && t[j as int].left == Some(
            i as usize,
        ))
        &&& (t[i].left matches Some(j) ==> j < t.len() && t[j as int].right == Some(i as usize))
    } by {
        if i < n && Some(i as usize) != l && Some(i as usize) != r {
            assert(t[i] == items[i]);
            if let Some(j) = items[i].right {
                assert(j as int != at);
                assert(j < n);
                if Some(j) == l {
                    assert(t[j as int].left == items[j as int].left);
                } else if Some(j) == r {
                    assert(items[j as int].left == Some(at as usize));
                } else {
                    assert(t[j as int] == items[j as int]);
                }
            }
            if let Some(j) = items[i].left {
                assert(j as int != at);
                if Some(j) == r {
                    assert(t[j as int].right == items[j as int].right);
                } else if Some(j) == l {
                    assert(items[j as int].right == Some(at as usize));
                } else {
                    assert(t[j as int] == items[j as int]);
                }
            }
        }
    }
}

/// Run law: an item is never put between an item it orders after and that item's child.
/// With `a` followed by `b` (inserted after `a`) and `b` followed by its child `c` (inserted
/// after `b`) at the end of the list, an item `d` inserted after `a`, with no right origin,
/// that orders after `b` goes after the whole run `b`, `c`: `b` still leads to `c`, and `c`
/// leads to `d`.
pub proof fn lemma_run_not_split(
    st: (Seq<ListItem>, Option<usize>, Option<usize>),
    parent: Id,
    a: int,
    b: int,
    c: int,
    d: int,
    clients: Seq<Client>,
)
    requires
        st.0.len() <= usize::MAX,
        0 <= a < st.0.len(),
        0 <= b < st.0.len(),
        0 <= c < st.0.len(),
        0 <= d < st.0.len(),
        a != b && a != c && a != d && b != c && b != d && c != d,
        st.0[a].right == Some(b as usize),
        st.0[b].right == Some(c as usize),
        st.0[c].right is None,
        st.0[d].left is None,
        st.0[b].left_id == Some(st.0[a].id),
        st.0[c].left_id == Some(st.0[b].id),
        st.0[d].left_id == Some(st.0[a].id),
        st.0[a].id != st.0[b].id,
        st.0[b].id != st.0[c].id,
        id_after(st.0[d].id, st.0[b].id, clients),
    ensures
        integration_scan(st.0, st.1, d, Some(a as usize), None, clients) == Ok::<
            (Option<usize>, nat),
            (),
        >((Some(c as usize), 2)),
        integrated(st, parent, d, Some(a as usize), None, clients).0[b].right == Some(c as usize),
        integrated(st, parent, d, Some(a as usize), None, clients).0[c].right == Some(d as usize),
        integrated(st, parent, d, Some(a as usize), None, clients).0[d].left == Some(c as usize),
{
    let items = st.0;
    let au = a as usize;
    let bu = b as usize;
    let cu = c as usize;
    let e: Seq<Id> = Seq::empty();
    let idb = items[b].id;
    let idc = items[c].id;
    assert(first_conflict(items, st.1, d, Some(au), None) == Some(bu));
    let seen1 = e.push(idb);
    let seen2 = seen1.push(idc);
    let since2 = e.push(idc);
    assert(seen2[0] == idb);
    assert(holds(seen2, idb));
    assert(!holds(since2, idb)) by {
        if since2.contains(idb) {
            let k = choose|k: int| 0 <= k < since2.len() && since2[k] == idb;
            assert(since2[k] == idc);
        }
    }
    assert(scan(items, d, None, clients, None, Some(cu), e, seen2, 2) == Ok::<
        (Option<usize>, nat),
        (),
    >((Some(cu), 2)));
    assert(scan(items, d, None, clients, Some(cu), Some(bu), e, seen1, 1) == Ok::<
        (Option<usize>, nat),
        (),
    >((Some(cu), 2)));
    assert(scan(items, d, None, clients, Some(bu), Some(au), e, e, 0) == Ok::<
        (Option<usize>, nat),
        (),
    >((Some(cu), 2)));
}

/// Scan law: when a conflicting item's left origin is another item than the integrated
/// item's, was looked at before, and was not looked at since the left neighbour last moved,
/// the conflicting item becomes the left neighbour and the scan goes on right of it with
/// nothing looked at since.
pub proof fn lemma_scan_moves_onto_reseen_origin(
    items: Seq<ListItem>,
    item: int,
    right: Option<usize>,
    clients: Seq<Client>,
    c: usize,
    origin: Id,
    left: Option<usize>,
    since: Seq<Id>,
    seen: Seq<Id>,
    n: nat,
)
    requires
        Some(c) != right,
        n + 1 <= SCAN_LIMIT,
        items[c as int].left_id == Some(origin),
        items[item].left_id != Some(origin),
        seen.contains(origin),
        !since.contains(origin),
        items[c as int].id != origin,
    ensures
        scan(items, item, right, clients, Some(c), left, since, seen, n) == scan(
            items,
            item,
            right,
            clients,
            items[c as int].right,
            Some(c),
            Seq::empty(),
            seen.push(items[c as int].id),
            n + 1,
        ),
{
    let cid = items[c as int].id;
    let seen1 = seen.push(cid);
    let since1 = since.push(cid);
    assert(holds(seen1, origin)) by {
        if seen.contains(origin) {
            let k = choose|k: int| 0 <= k < seen.len() && seen[k] == origin;
            assert(seen1[k] == origin);
        }
    }
    assert(!holds(since1, origin)) by {
        if since1.contains(origin) {
            let k = choose|k: int| 0 <= k < since1.len() && since1[k] == origin;
            if k < since.len() {
                assert(since[k] == origin);
            }
        }
    }
}

/// Id order law: within one client an id orders after another exactly when its clock is
/// later; across clients, exactly when the hash of its text is greater; no id orders after
/// itself, and of two ids of one client with different clocks one orders after the other.
pub proof fn lemma_id_order(a: Id, b: Id, clients: Seq<Client>)
    ensures
        a.client == b.client ==> (id_after(a, b, clients) <==> a.clock > b.clock),
        a.client != b.client ==> (id_after(a, b, clients) <==> text_hash(
            id_text(clients[a.client as int], a.clock),
        ) > text_hash(id_text(clients[b.client as int], b.clock))),
        !id_after(a, a, clients),
        a.client == b.client && a.clock != b.clock ==> id_after(a, b, clients) != id_after(
            b,
            a,
            clients,
        ),
{
}

/// Where the halves of a split item stand: the left half leads to the right half and back,
/// the item's left neighbour leads to the left half (which starts the list when there is
/// none), and the item's right neighbour is led back to the right half.
pub proof fn lemma_split_ends(
    items: Seq<ListItem>,
    start: Option<usize>,
    at: int,
    a: ListItem,
    b: ListItem,
)
    requires
        0 <= at < items.len(),
        items.len() + 2 <= usize::MAX,
        forall|i: int|
            0 <= i < items.len() ==> in_arena((#[trigger] items[i]).left, items.len()) && in_arena(
                items[i].right,
                items.len(),
            ),
    ensures
        ({
            let t = split_linked(items, start, at, a, b);
            let n = items.len() as int;
            &&& t.0.len() == n + 2
            &&& t.0[n].right == Some((n + 1) as usize)
            &&& t.0[n + 1].left == Some(n as usize)
            &&& forall|rv: usize|
                items[at].right == Some(rv) && rv != at ==> (#[trigger] t.0[rv as int]).left == Some(
                    (n + 1) as usize,
                )
            &&& forall|lv: usize|
                items[at].left == Some(lv) && lv != at ==> (#[trigger] t.0[lv as int]).right == Some(
                    n as usize,
                )
            &&& items[at].left is None ==> t.1 == Some(n as usize)
            &&& items[at].left is Some ==> t.1 == start
        }),
{
}

/// Link law for linking after an item: an unlinked item put right after another item of a
/// list linked both ways leaves the list linked both ways.
pub proof fn lemma_linked_after_keeps_links(items: Seq<ListItem>, prev: int, item: int)
    requires
        linked_both_ways(items, -1),
        items.len() <= usize::MAX,
        0 <= prev < items.len(),
        0 <= item < items.len(),
        prev != item,
        items[item].left is None,
        items[item].right is None,
    ensures
        linked_both_ways(linked_after(items, prev, item), -1),
{
    let t = linked_after(items, prev, item);
    let next = items[prev].right;
    if let Some(nv) = next {
        assert(items[nv as int].left == Some(prev as usize));
        assert(nv as int != item);
    }
    assert forall|i: int| 0 <= i < t.len() && i != -1 implies {
        &&& ((#[trigger] t[i]).right matches Some(j) ==> j < t.len() && t[j as int].left == Some(
            i as usize,
        ))
        &&& (t[i].left matches Some(j) ==> j < t.len() && t[j as int].right == Some(i as usize))
    } by {
        if i != prev && i != item && Some(i as usize) != next {
            assert(t[i] == items[i]);
            if let Some(j) = items[i].right {
                assert(j as int != item);
                if j as int == prev {
                    assert(next != Some(prev as usize));
                    assert(t[prev].left == items[prev].left);
                } else if Some(j) != next {
                    assert(t[j as int] == items[j as int]);
                }
            }
            if let Some(j) = items[i].left {
                assert(j as int != item);
                if j as int == prev {
                    assert(items[prev].right == Some(i as usize));
                }
                if Some(j) != next {
                    assert(t[j as int] == items[j as int]);
                }
            }
        }
        if i == prev {
            if let Some(j) = items[i].left {
                assert(j as int != item);
                if Some(j) != next {
                    assert(t[j as int] == items[j as int]);
                }
            }
        }
        if Some(i as usize) == next && i != prev {
            if let Some(j) = items[i].right {
                assert(j as int != item);
                if j as int == prev {
                    assert(next != Some(prev as usize));
                    assert(t[prev].left == items[prev].left);
                } else if Some(j) != next {
                    assert(t[j as int] == items[j as int]);
                }
            }
        }
    }
}

/// Link law for linking at the start: an unlinked item put before the item that starts a
/// list linked both ways leaves the list linked both ways.
pub proof fn lemma_linked_start_keeps_links(
    items: Seq<ListItem>,
    start: Option<usize>,
    item: int,
    parent: Id,
)
    requires
        linked_both_ways(items, -1),
        items.len() <= usize::MAX,
        0 <= item < items.len(),
        items[item].left is None,
        items[item].right is None,
        start is Some ==> start != Some(item as usize) && start->0 < items.len() && items[start->0 as int].left is None,
    ensures
        linked_both_ways(linked_start(items, start, item, parent), -1),
{
    let t = linked_start(items, start, item, parent);
    assert forall|i: int| 0 <= i < t.len() && i != -1 implies {
        &&& ((#[trigger] t[i]).right matches Some(j) ==> j < t.len() && t[j as int].left == Some(
            i as usize,
        ))
        &&& (t[i].left matches Some(j) ==> j < t.len() && t[j as int].right == Some(i as usize))
    } by {
        if i != item && Some(i as usize) != start {
            assert(t[i] == items[i]);
            if let Some(j) = items[i].right {
                assert(j as int != item);
                if Some(j) != start {
                    assert(t[j as int] == items[j as int]);
                }
            }
            if let Some(j) = items[i].left {
                assert(j as int != item);
                if Some(j) != start {
                    assert(t[j as int] == items[j as int]);
                }
            }
        }
        if Some(i as usize) == start {
            if let Some(j) = items[i].right {
                assert(j as int != item);
                if Some(j) != start {
                    assert(t[j as int] == items[j as int]);
                }
            }
        }
    }
}

} // verus!
