use nitro::codec_v1::{DecoderV1, EncoderV1};
use nitro::decoder::{Decode, DecodeContext};
use nitro::encoder::{Encode, EncodeContext, Encoder};
use nitro::queue_store::ClientQueueStore;
use nitro::change::{ChangeId, ChangeStore};
use nitro::change_store::ItemStackStore;
use nitro::id::{Id, WithId};
use nitro::queue_store::QueueStore;

#[test]
fn test_find_change_id() {
    let mut dag = ItemStackStore::default();
    let c1 = ChangeId::new(1, 0, 0);
    dag.push(c1.clone());
    let c2 = ChangeId::new(1, 2, 5);
    dag.push(c2.clone());
    let c3 = ChangeId::new(1, 6, 8);
    dag.push(c3.clone());
    let c4 = ChangeId::new(1, 9, 10);
    dag.push(c4.clone());
    let c5 = ChangeId::new(1, 11, 14);
    dag.push(c5.clone());
    let c6 = ChangeId::new(1, 15, 20);
    dag.push(c6.clone());

    assert_eq!(dag.find(c1.id()), Some(&c1));
    assert_eq!(dag.find(c2.id()), Some(&c2));
    assert_eq!(dag.find(c3.id()), Some(&c3));
    assert_eq!(dag.find(c4.id()), Some(&c4));
    assert_eq!(dag.find(c5.id()), Some(&c5));
    assert_eq!(dag.find(c6.id()), Some(&c6));
    assert_eq!(dag.find(Id::new(1, 7)), Some(&c3));
}

#[test]
fn test_queue_vs_store() {
    let now = std::time::Instant::now();
    let mut queue = QueueStore::default();
    for i in 0..50000 {
        queue.append(Id::new(0, i as u32));
    }

    for _ in 0..5000 {
        queue.pop_front();
    }

    println!("queue time: {:?}", now.elapsed());
}

#[test]
fn queue_reads_forward_and_pops_back() {
    let mut q: QueueStore<u32> = QueueStore::new();
    assert!(q.is_empty());
    q.append(1);
    q.append(2);
    q.append(3);
    assert_eq!(q.pop_front(), Some(&1));
    assert_eq!(q.pop_front(), Some(&2));
    assert_eq!(q.pop(), Some(3));
    assert_eq!(q.pop_front(), None);
    q.reset();
    assert_eq!(q.pop_front(), Some(&1));
    q.clear();
    assert!(q.is_empty());
}

#[test]
fn stack_store_skips_a_push_with_the_same_clock() {
    let mut s: ItemStackStore<ChangeId> = ItemStackStore::new();
    s.push(ChangeId::new(1, 0, 3));
    s.push(ChangeId::new(2, 0, 9));
    assert_eq!(s.iter().len(), 1);
    assert_eq!(s.find(Id::new(1, 9)), None);
    assert_eq!(s.last(), Some(&ChangeId::new(1, 0, 3)));
}

#[test]
fn stack_store_cursor_walks_back_and_forth() {
    let mut s: ItemStackStore<ChangeId> = ItemStackStore::new();
    s.push(ChangeId::new(1, 0, 1));
    s.push(ChangeId::new(1, 2, 3));
    // stepping back past the second entry leaves only one entry before the cursor
    assert_eq!(s.prev(), None);
    assert_eq!(s.prev(), None);
    assert_eq!(s.next(), Some(&ChangeId::new(1, 0, 1)));
    assert_eq!(s.next(), Some(&ChangeId::new(1, 2, 3)));
    assert_eq!(s.reset_cursor(), 2);
    assert_eq!(s.pop(), Some(ChangeId::new(1, 2, 3)));
    s.clear();
    assert_eq!(s.current(), None);
}

#[test]
fn item_stack_last_changes_in_place() {
    let mut store: nitro::change_store::ItemStackStore<nitro::change::ChangeId> =
        nitro::change_store::ItemStackStore::new();
    assert!(store.last_mut().is_none());
    store.push(nitro::change::ChangeId::new(1, 1, 1));
    store.push(nitro::change::ChangeId::new(1, 2, 4));
    if let Some(last) = store.last_mut() {
        last.end = 9;
    }
    assert_eq!(store.last().unwrap().end, 9);
    assert_eq!(store.cursor, 2);
}

#[test]
fn client_queues_keep_each_client_apart() {
    let mut store: ClientQueueStore<ChangeId> = ClientQueueStore::new();
    store.insert(ChangeId::new(2, 1, 1));
    store.insert(ChangeId::new(1, 1, 2));
    store.insert(ChangeId::new(2, 2, 3));
    assert_eq!(store.size(2), 2);
    assert_eq!(store.size(1), 1);
    assert_eq!(store.size(7), 0);
    assert_eq!(store.pop(&2), Some(&ChangeId::new(2, 1, 1)));
    assert_eq!(store.pop(&2), Some(&ChangeId::new(2, 2, 3)));
    assert_eq!(store.pop(&2), None);
    store.reverse();
    assert_eq!(store.take_first(&2), Some(ChangeId::new(2, 1, 1)));
    assert_eq!(store.take_first(&9), None);
    assert_eq!(store.size(9), 0);
    store.remove(&Id::new(1, 0));
    assert_eq!(store.size(1), 0);
    store.clear();
    assert!(store.items.is_empty());
}

#[test]
fn client_queues_read_back_what_was_written() {
    let mut store: ClientQueueStore<ChangeId> = ClientQueueStore::new();
    store.insert(ChangeId::new(5, 1, 1));
    store.insert(ChangeId::new(3, 2, 2));
    store.insert(ChangeId::new(5, 2, 4));
    let mut encoder = EncoderV1::with_capacity(0);
    store.encode(&mut encoder, &mut EncodeContext::default());
    let buf = encoder.buffer();
    // the count, then client 3 before client 5
    assert_eq!(&buf[1..9], &[0, 0, 0, 2, 0, 0, 0, 3]);
    let mut decoder = DecoderV1::new(buf);
    let back: ClientQueueStore<ChangeId> =
        ClientQueueStore::decode(&mut decoder, &DecodeContext::default()).unwrap();
    assert_eq!(back.size(5), 2);
    assert_eq!(back.items.get(&5).unwrap().vec, vec![ChangeId::new(5, 1, 1), ChangeId::new(5, 2, 4)]);
    assert_eq!(back.items.get(&3).unwrap().vec, vec![ChangeId::new(3, 2, 2)]);
}

#[test]
fn test_find_change_by_item_id() {
    let mut cs = ChangeStore::default();
    cs.insert(ChangeId::new(1, 0, 1)); // [0,1]
    cs.insert(ChangeId::new(1, 2, 3)); // [1,2]
    cs.insert(ChangeId::new(1, 4, 4)); // [1,2]

    // if the change is in the store, it should return the change
    assert_eq!(cs.get(&Id::new(1, 0)), Some(&ChangeId::new(1, 0, 1)),);
    assert_eq!(cs.get(&Id::new(1, 2)), Some(&ChangeId::new(1, 2, 3)),);
    assert_eq!(cs.get(&Id::new(1, 4)), Some(&ChangeId::new(1, 4, 4)),);
    assert_eq!(cs.get(&Id::new(1, 5)), None);
}

#[test]
fn test_find_dependency_changes_by_item_ids() {
    let mut cs = ChangeStore::default();
    cs.insert(ChangeId::new(1, 0, 1)); // [0,1]
    cs.insert(ChangeId::new(1, 2, 3)); // [1,2]
    cs.insert(ChangeId::new(1, 4, 4)); // [1,2]

    let changes = cs.deps(&vec![Id::new(1, 0), Id::new(1, 2), Id::new(1, 4)]);
    assert_eq!(changes.len(), 3);
    assert!(changes.contains(&ChangeId::new(1, 0, 1)));
    assert!(changes.contains(&ChangeId::new(1, 2, 3)));
    assert!(changes.contains(&ChangeId::new(1, 4, 4)));
}

#[test]
fn change_store_counts_removes_and_lists_each_dependency_once() {
    let mut cs = ChangeStore::new();
    cs.insert(ChangeId::new(1, 0, 1));
    cs.insert(ChangeId::new(1, 1, 5)); // overlaps the first: not kept
    cs.insert(ChangeId::new(2, 3, 4));
    assert_eq!(cs.size(), 2);
    let changes = cs.deps(&vec![Id::new(1, 0), Id::new(1, 1), Id::new(3, 0)]);
    assert_eq!(changes, vec![ChangeId::new(1, 0, 1)]);
    cs.remove(&Id::new(1, 1));
    assert_eq!(cs.get(&Id::new(1, 0)), None);
    assert_eq!(cs.size(), 1);
    assert_eq!(cs.id_store(&2).map(|s| s.size()), Some(1));
    assert!(cs.id_store(&7).is_none());
    if let Some(store) = cs.id_store_mut(&2) {
        store.insert(ChangeId::new(2, 9, 9));
    }
    assert_eq!(cs.size(), 2);
}

#[test]
fn change_store_diff_keeps_changes_after_the_peer_clocks() {
    let mut cs = ChangeStore::new();
    cs.insert(ChangeId::new(1, 0, 1));
    cs.insert(ChangeId::new(1, 2, 3));
    cs.insert(ChangeId::new(1, 4, 4));
    cs.insert(ChangeId::new(2, 0, 5));
    let mut state = std::collections::HashMap::new();
    state.insert(1u32, 2u32);
    let d = cs.diff(&state);
    assert_eq!(d.size(), 1);
    assert_eq!(d.id_store(&1).unwrap().iter(), &[ChangeId::new(1, 4, 4)][..]);
    // a client the peer has no clock of keeps the changes that start after 0
    assert_eq!(d.id_store(&2).unwrap().iter(), &[] as &[ChangeId]);
    assert_eq!(d.iter().len(), 2);
    assert!(cs.hash_set().is_empty());
}
