use nitro::client::Client;
use nitro::crdt::{compare_after, id_hash, integrate, split_item, ItemList, ListItem};
use nitro::item::{Content, ItemData, ItemKind};
use nitro::id::{Id, IdRange};
use std::hash::{DefaultHasher, Hash, Hasher};

fn item(client: u32, clock: u32, left_id: Option<Id>, right_id: Option<Id>) -> ListItem {
    ListItem {
        id: Id::new(client, clock),
        left_id,
        right_id,
        parent_id: None,
        left: None,
        right: None,
    }
}

fn order(list: &ItemList) -> Vec<(u32, u32)> {
    let mut out = Vec::new();
    let mut at = list.start;
    while let Some(i) = at {
        out.push((list.items[i].id.client, list.items[i].id.clock));
        at = list.items[i].right;
    }
    out
}

fn clients() -> Vec<Client> {
    vec![Client::from_bytes(&[1u8; 16]), Client::from_bytes(&[2u8; 16])]
}

fn std_hash(text: &str) -> u64 {
    let mut h = DefaultHasher::new();
    text.to_string().hash(&mut h);
    h.finish()
}

#[test]
fn integrate_into_an_empty_list_starts_and_ends_it() {
    let parent = Id::new(0, 0);
    let mut list = ItemList { parent, items: vec![item(0, 1, None, None)], start: None, end: None };
    let r = integrate(&mut list, 0, None, None, &clients());
    assert_eq!(r, Ok((None, 0)));
    assert_eq!(list.start, Some(0));
    assert_eq!(list.end, Some(0));
    assert_eq!(list.items[0].parent_id, Some(parent));
    assert_eq!(order(&list), vec![(0, 1)]);
}

#[test]
fn integrate_after_its_left_origin_without_conflict() {
    let parent = Id::new(0, 0);
    let a = item(0, 1, None, None);
    let mut b = item(0, 2, Some(a.id), None);
    b.left = Some(0);
    let mut list = ItemList { parent, items: vec![a, b], start: None, end: None };
    assert_eq!(integrate(&mut list, 0, None, None, &clients()), Ok((None, 0)));
    assert_eq!(integrate(&mut list, 1, Some(0), None, &clients()), Ok((Some(0), 0)));
    assert_eq!(order(&list), vec![(0, 1), (0, 2)]);
    assert_eq!(list.end, Some(1));
    assert_eq!(list.items[1].left, Some(0));
    assert_eq!(list.items[1].parent_id, Some(parent));
}

#[test]
fn integrate_a_greater_concurrent_insert_goes_after_the_smaller() {
    let a = item(0, 1, None, None);
    let b = item(1, 5, Some(a.id), None);
    let c = item(1, 6, Some(a.id), None);
    let mut list = ItemList { parent: Id::new(0, 0), items: vec![a, b, c], start: None, end: None };
    integrate(&mut list, 0, None, None, &clients()).unwrap();
    assert_eq!(integrate(&mut list, 1, Some(0), None, &clients()), Ok((Some(0), 0)));
    assert_eq!(integrate(&mut list, 2, Some(0), None, &clients()), Ok((Some(1), 1)));
    assert_eq!(order(&list), vec![(0, 1), (1, 5), (1, 6)]);
    assert_eq!(list.end, Some(2));
}

#[test]
fn integrate_a_smaller_concurrent_insert_goes_before_the_greater() {
    let a = item(0, 1, None, None);
    let b = item(1, 5, Some(a.id), None);
    let c = item(1, 4, Some(a.id), None);
    let mut list = ItemList { parent: Id::new(0, 0), items: vec![a, b, c], start: None, end: None };
    integrate(&mut list, 0, None, None, &clients()).unwrap();
    integrate(&mut list, 1, Some(0), None, &clients()).unwrap();
    assert_eq!(integrate(&mut list, 2, Some(0), None, &clients()), Ok((Some(0), 1)));
    assert_eq!(order(&list), vec![(0, 1), (1, 4), (1, 5)]);
    assert_eq!(list.end, Some(1));
}

#[test]
fn integrate_at_the_start_before_the_first_item() {
    let a = item(0, 1, None, None);
    let mut b = item(0, 2, None, Some(a.id));
    b.right = Some(0);
    let mut list = ItemList { parent: Id::new(0, 0), items: vec![a, b], start: None, end: None };
    integrate(&mut list, 0, None, None, &clients()).unwrap();
    assert_eq!(integrate(&mut list, 1, None, Some(0), &clients()), Ok((None, 0)));
    assert_eq!(order(&list), vec![(0, 2), (0, 1)]);
    assert_eq!(list.start, Some(1));
    assert_eq!(list.end, Some(0));
}

#[test]
fn ids_of_different_clients_order_by_the_hash_of_their_text() {
    let cs = clients();
    let a = Id::new(0, 3);
    let b = Id::new(1, 3);
    let ta = format!("{}{}", uuid::Uuid::from_bytes([1u8; 16]), 3);
    let tb = format!("{}{}", uuid::Uuid::from_bytes([2u8; 16]), 3);
    assert_eq!(id_hash(&cs[0], 3), std_hash(&ta));
    assert_eq!(id_hash(&cs[1], 3), std_hash(&tb));
    assert_eq!(compare_after(&a, &b, &cs), std_hash(&ta) > std_hash(&tb));
    assert_eq!(compare_after(&b, &a, &cs), std_hash(&tb) > std_hash(&ta));
    assert!(compare_after(&Id::new(0, 4), &Id::new(0, 3), &cs));
    assert!(!compare_after(&Id::new(0, 3), &Id::new(0, 3), &cs));
}

#[test]
fn integrate_orders_concurrent_inserts_of_two_clients_by_hash() {
    let cs = clients();
    let a = item(0, 1, None, None);
    let b = item(0, 7, Some(a.id), None);
    let c = item(1, 7, Some(a.id), None);
    let mut list = ItemList { parent: Id::new(0, 0), items: vec![a, b, c], start: None, end: None };
    integrate(&mut list, 0, None, None, &cs).unwrap();
    integrate(&mut list, 1, Some(0), None, &cs).unwrap();
    integrate(&mut list, 2, Some(0), None, &cs).unwrap();
    let c_after_b = id_hash(&cs[1], 7) > id_hash(&cs[0], 7);
    if c_after_b {
        assert_eq!(order(&list), vec![(0, 1), (0, 7), (1, 7)]);
    } else {
        assert_eq!(order(&list), vec![(0, 1), (1, 7), (0, 7)]);
    }
}

#[test]
fn split_item_puts_both_halves_in_the_item_place() {
    let a = item(0, 1, None, None);
    let s = item(1, 10, Some(a.id), None);
    let c = item(2, 1, Some(Id::new(1, 14)), None);
    let mut list = ItemList { parent: Id::new(0, 0), items: vec![a, s, c], start: None, end: None };
    integrate(&mut list, 0, None, None, &clients()).unwrap();
    integrate(&mut list, 1, Some(0), None, &clients()).unwrap();
    integrate(&mut list, 2, Some(1), None, &clients()).unwrap();
    let data = ItemData {
        kind: ItemKind::String,
        id: Id::new(1, 10),
        parent_id: None,
        left_id: Some(Id::new(0, 1)),
        right_id: None,
        field: None,
        content: Content::String("hello".to_string()),
        target_id: None,
        mover_id: None,
    };
    assert_eq!(split_item(&mut list, 1, &data, 3), Ok((3, 4)));
    assert_eq!(order(&list), vec![(0, 1), (1, 10), (1, 13), (2, 1)]);
    assert_eq!(list.items[3].right_id.map(|i| (i.client, i.clock)), Some((1, 13)));
    assert_eq!(list.items[4].left_id.map(|i| (i.client, i.clock)), Some((1, 12)));
    assert_eq!(list.items[3].left, Some(0));
    assert_eq!(list.items[4].right, Some(2));
}

#[test]
fn split_item_of_the_first_item_starts_the_list_with_its_left_half() {
    let s = item(1, 10, None, None);
    let mut list = ItemList { parent: Id::new(0, 0), items: vec![s], start: None, end: None };
    integrate(&mut list, 0, None, None, &clients()).unwrap();
    let data = ItemData {
        kind: ItemKind::String,
        id: Id::new(1, 10),
        parent_id: Some(Id::new(0, 0)),
        left_id: None,
        right_id: None,
        field: None,
        content: Content::String("ab".to_string()),
        target_id: None,
        mover_id: None,
    };
    assert_eq!(split_item(&mut list, 0, &data, 1), Ok((1, 2)));
    assert_eq!(list.start, Some(1));
    assert_eq!(order(&list), vec![(1, 10), (1, 11)]);
}

#[test]
fn id_compare_orders_by_clock_within_a_client_and_by_hash_across() {
    let cs = clients();
    assert_eq!(Id::new(0, 1).compare(&Id::new(0, 2), &cs), std::cmp::Ordering::Less);
    assert_eq!(Id::new(1, 5).compare(&Id::new(1, 5), &cs), std::cmp::Ordering::Equal);
    let ta = format!("{}{}", uuid::Uuid::from_bytes([1u8; 16]), 8);
    let tb = format!("{}{}", uuid::Uuid::from_bytes([2u8; 16]), 8);
    assert_eq!(
        Id::new(0, 8).compare(&Id::new(1, 8), &cs),
        std_hash(&ta).cmp(&std_hash(&tb))
    );
}

#[test]
fn id_range_compare_orders_by_overlap_within_a_client_and_by_hash_across() {
    let cs = clients();
    let a = IdRange::new(0, 1, 3);
    let b = IdRange::new(0, 4, 6);
    let c = IdRange::new(0, 2, 2);
    assert_eq!(a.compare(&b, &cs), std::cmp::Ordering::Less);
    assert_eq!(b.compare(&a, &cs), std::cmp::Ordering::Greater);
    assert_eq!(a.compare(&c, &cs), std::cmp::Ordering::Equal);
    let d = IdRange::new(1, 1, 3);
    let ta = format!("({}, {})", uuid::Uuid::from_bytes([1u8; 16]), 1);
    let td = format!("({}, {})", uuid::Uuid::from_bytes([2u8; 16]), 1);
    assert_eq!(a.compare(&d, &cs), std_hash(&ta).cmp(&std_hash(&td)));
}

fn two_inserts(first: usize, second: usize) -> ItemList {
    let cs = clients();
    let a = item(0, 1, None, None);
    let b = item(0, 7, Some(a.id), None);
    let c = item(1, 7, Some(a.id), None);
    let mut list = ItemList { parent: Id::new(0, 0), items: vec![a, b, c], start: None, end: None };
    integrate(&mut list, 0, None, None, &cs).unwrap();
    integrate(&mut list, first, Some(0), None, &cs).unwrap();
    integrate(&mut list, second, Some(0), None, &cs).unwrap();
    list
}

#[test]
fn concurrent_inserts_converge_whichever_comes_first() {
    let one = two_inserts(1, 2);
    let two = two_inserts(2, 1);
    assert_eq!(order(&one), order(&two));
    assert_eq!(one.items, two.items);
    assert_eq!(one.start, two.start);
    assert_eq!(one.end, two.end);
}
