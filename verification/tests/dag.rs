use nitro::change::ChangeId;
use nitro::dag::{key_of, ChangeDag, ChangeLinks, ChangeNode};
use nitro::id::Id;

#[test]
fn test_change_dag_insert_and_undo() {
    let mut dag = ChangeDag::default();
    let c1 = ChangeId::new(1, 0, 0);
    let c2 = ChangeId::new(1, 1, 1);
    let c3 = ChangeId::new(1, 2, 2);

    dag.insert(ChangeNode::root(c1)).unwrap();
    dag.insert(ChangeNode::new(c2, vec![c1])).unwrap();
    dag.insert(ChangeNode::new(c3, vec![c2])).unwrap();

    assert_eq!(dag.queue.size(), 1);
    let item = dag.undo();
    assert_eq!(item.unwrap(), c3);

    assert_eq!(dag.queue.size(), 1);
    let item = dag.undo();
    assert_eq!(item.unwrap(), c2);

    assert_eq!(dag.queue.size(), 1);
    let item = dag.undo();
    assert_eq!(item.unwrap(), c1);

    dag.done();

    let items = dag.sort_changes();
    assert_eq!(items.len(), 3);
    assert_eq!(items, vec![c1, c2, c3]);
}

#[test]
fn test_change_dag_insert_and_undo_1() {
    let mut dag = ChangeDag::default();
    let c1 = ChangeId::new(1, 1, 1);
    let c2 = ChangeId::new(1, 2, 3);
    let c3 = ChangeId::new(1, 4, 7);

    dag.insert(ChangeNode::root(c1)).unwrap();
    dag.insert(ChangeNode::new(c2, vec![c1])).unwrap();
    dag.insert(ChangeNode::new(c3, vec![c1])).unwrap();

    let items = dag.sort_changes();
    assert_eq!(items.len(), 3);
    assert_eq!(items, vec![c1, c2, c3]);
}

#[test]
fn test_change_dag_insert_and_undo_2() {
    for _ in 0..1000 {
        let mut dag = ChangeDag::default();
        let c1 = ChangeId::new(0, 1, 1);
        let c2 = ChangeId::new(0, 2, 5);
        let c3 = ChangeId::new(0, 6, 9);
        let c4 = ChangeId::new(1, 1, 2);
        let c5 = ChangeId::new(1, 3, 5);

        dag.insert(ChangeNode::root(c1)).unwrap();
        dag.insert(ChangeNode::new(c2, vec![c1])).unwrap();
        dag.insert(ChangeNode::new(c3, vec![c1])).unwrap();
        dag.insert(ChangeNode::new(c4, vec![c3])).unwrap();
        dag.insert(ChangeNode::new(c5, vec![c3, c4])).unwrap();

        let items = dag.sort_changes();
        assert_eq!(items.len(), 5);
        assert_eq!(items, vec![c1, c2, c3, c4, c5]);
    }
}

#[test]
fn dag_undo_on_empty_queue_gives_none() {
    let mut dag = ChangeDag::new();
    assert_eq!(dag.undo(), None);
    assert!(dag.sort_changes().is_empty());
}

#[test]
fn dag_undo_passes_over_skipped_changes() {
    let mut dag = ChangeDag::new();
    let c1 = ChangeId::new(2, 1, 1);
    let c2 = ChangeId::new(2, 2, 2);
    let c3 = ChangeId::new(2, 3, 3);
    let c4 = ChangeId::new(2, 4, 4);
    dag.insert(ChangeNode::root(c1)).unwrap();
    dag.insert(ChangeNode::new(c2, vec![c1])).unwrap();
    dag.insert(ChangeNode::new(c3, vec![c2]).skipped()).unwrap();
    dag.insert(ChangeNode::new(c4, vec![c3])).unwrap();
    assert_eq!(dag.undo(), Some(c4));
    // the cursor passes over the skipped c3 and stops past c2
    assert_eq!(dag.store.cursor(2), Some(2));
    assert!(dag.dirty.contains(&2));
}

#[test]
fn dag_done_puts_the_last_change_back_in_the_queue() {
    let mut dag = ChangeDag::new();
    let c1 = ChangeId::new(3, 1, 1);
    let c2 = ChangeId::new(3, 2, 2);
    dag.insert(ChangeNode::root(c1)).unwrap();
    dag.insert(ChangeNode::new(c2, vec![c1])).unwrap();
    assert_eq!(dag.undo(), Some(c2));
    dag.done();
    assert_eq!(dag.store.cursor(3), Some(2));
    assert_eq!(dag.queue.last(), Some(&c2));
}

#[test]
fn change_links_count_children() {
    let mut links = ChangeLinks::new();
    let parent = Id::new(1, 5);
    links.add(parent);
    links.add(parent);
    assert!(!links.is_ready(parent));
    assert!(!links.unlink_parent(parent));
    assert!(links.unlink_parent(parent));
    assert!(links.is_ready(parent));
    assert!(!links.unlink_parent(Id::new(1, 6)));
    assert!(links.is_ready(Id::new(1, 6)));
    links.reset();
    assert!(!links.is_ready(parent));
    assert_eq!(links.children.get(&key_of(parent)), Some(&(2, 2)));
    assert!(links.dirty.is_empty());
}

#[test]
fn id_keys_keep_client_and_clock_apart() {
    assert_eq!(key_of(Id::new(1, 0)), 1u64 << 32);
    assert_eq!(key_of(Id::new(0, 1)), 1);
    assert_ne!(key_of(Id::new(1, 0)), key_of(Id::new(0, 1)));
}

#[test]
fn dag_takes_back_the_last_queued_change_across_clients() {
    // The queue is taken from its end, and the queue orders changes by client first, so
    // a parent of a higher client is taken back before its child of a lower client.
    let mut dag = ChangeDag::default();
    let parent = ChangeId::new(2, 0, 0);
    let child = ChangeId::new(1, 0, 0);
    dag.insert(ChangeNode::root(parent)).unwrap();
    dag.insert(ChangeNode::new(child, vec![parent])).unwrap();
    assert_eq!(dag.sort_changes(), vec![child, parent]);
}

struct Rng(u64);

impl Rng {
    fn below(&mut self, n: usize) -> usize {
        self.0 ^= self.0 << 13;
        self.0 ^= self.0 >> 7;
        self.0 ^= self.0 << 17;
        (self.0 % n as u64) as usize
    }
}

struct RandomDag {
    clients: Vec<u32>,
    changes: Vec<ChangeId>,
    parents: std::collections::HashMap<ChangeId, Vec<ChangeId>>,
    rng: Rng,
}

impl RandomDag {
    fn with_clients(count: u32, seed: u64) -> Self {
        RandomDag {
            clients: (0..count).collect(),
            changes: Vec::new(),
            parents: std::collections::HashMap::new(),
            rng: Rng(seed | 1),
        }
    }

    fn generate(&mut self, nodes: u32) {
        let mut ends: std::collections::HashMap<u32, u32> = std::collections::HashMap::new();
        for _ in 0..nodes {
            let client = self.clients[self.rng.below(self.clients.len())];
            let parent_count = 1 + self.rng.below(4);
            let mut parents: Vec<ChangeId> = Vec::new();
            for _ in 0..parent_count {
                if !self.changes.is_empty() {
                    let p = self.changes[self.rng.below(self.changes.len())];
                    if !parents.contains(&p) {
                        parents.push(p);
                    }
                }
            }
            let start = *ends.get(&client).unwrap_or(&1);
            let end = start + 1 + self.rng.below(3) as u32;
            ends.insert(client, end + 1);
            let change = ChangeId::new(client, start, end);
            self.changes.push(change);
            self.parents.insert(change, parents);
        }
    }

    // a random topological order that keeps each client's changes in clock order
    fn sort(&mut self) -> Vec<ChangeId> {
        let mut done = std::collections::HashSet::new();
        let mut next: std::collections::HashMap<u32, Vec<ChangeId>> =
            std::collections::HashMap::new();
        for c in &self.changes {
            next.entry(c.client).or_default().push(*c);
        }
        let mut sorted = Vec::new();
        while sorted.len() < self.changes.len() {
            let client = self.clients[self.rng.below(self.clients.len())];
            if let Some(list) = next.get_mut(&client) {
                if let Some(first) = list.first().cloned() {
                    if self.parents[&first].iter().all(|p| done.contains(p)) {
                        sorted.push(first);
                        done.insert(first);
                        list.remove(0);
                    }
                }
            }
        }
        sorted
    }
}

fn dag_of(order: &[ChangeId], dag: &RandomDag) -> ChangeDag {
    let mut d = ChangeDag::default();
    for change in order {
        let parents = dag.parents.get(change).cloned().unwrap_or_default();
        d.insert(ChangeNode::new(*change, parents)).unwrap();
    }
    d
}

#[test]
fn generate_random_dag() {
    let mut dag = RandomDag::with_clients(10, 2);
    dag.generate(1000);

    let sort1 = dag.sort();
    let sorted_changes1 = dag_of(&sort1, &dag).sort_changes();

    // different topological orders must converge
    for _ in 0..500 {
        let sort2 = dag.sort();
        let sorted_changes2 = dag_of(&sort2, &dag).sort_changes();
        assert_ne!(sort1, sort2);
        assert_eq!(sorted_changes1, sorted_changes2)
    }
}

#[test]
fn dag_sorts_alike_whichever_client_comes_first() {
    let a1 = ChangeId::new(1, 1, 1);
    let a2 = ChangeId::new(1, 2, 3);
    let b1 = ChangeId::new(2, 1, 2);
    let b2 = ChangeId::new(2, 3, 3);
    let order1 = [
        (a1, vec![]),
        (b1, vec![a1]),
        (a2, vec![a1]),
        (b2, vec![b1, a2]),
    ];
    let order2 = [
        (a1, vec![]),
        (a2, vec![a1]),
        (b1, vec![a1]),
        (b2, vec![b1, a2]),
    ];
    let mut d1 = ChangeDag::default();
    for (c, p) in order1.iter() {
        d1.insert(ChangeNode::new(*c, p.clone())).unwrap();
    }
    let mut d2 = ChangeDag::default();
    for (c, p) in order2.iter() {
        d2.insert(ChangeNode::new(*c, p.clone())).unwrap();
    }
    let r1 = d1.sort_changes();
    assert_eq!(r1, d2.sort_changes());
    assert_eq!(r1.len(), 4);
}
