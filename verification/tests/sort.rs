use nitro::change::sort::{sort_changes, ParentMap};
use nitro::change::ChangeId;

fn position(r: &[ChangeId], c: &ChangeId) -> usize {
    r.iter().position(|x| x == c).unwrap()
}

#[test]
fn sort_changes_orders_a_chain() {
    let a = ChangeId::new(1, 1, 1);
    let b = ChangeId::new(1, 2, 2);
    let c = ChangeId::new(2, 1, 3);
    let mut parents = ParentMap::new();
    parents.insert(c, vec![b]);
    parents.insert(a, vec![]);
    parents.insert(b, vec![a]);
    assert_eq!(sort_changes(parents), vec![a, b, c]);
}

#[test]
fn sort_changes_puts_parents_first() {
    let a = ChangeId::new(1, 1, 1);
    let b = ChangeId::new(2, 1, 1);
    let c = ChangeId::new(3, 1, 1);
    let d = ChangeId::new(4, 1, 1);
    let mut parents = ParentMap::new();
    parents.insert(a, vec![]);
    parents.insert(b, vec![a]);
    parents.insert(c, vec![a]);
    parents.insert(d, vec![b, c, b]);
    let r = sort_changes(parents);
    assert_eq!(r.len(), 4);
    assert_eq!(r[0], a);
    assert_eq!(r[3], d);
    assert!(position(&r, &b) < position(&r, &d));
    assert!(position(&r, &c) < position(&r, &d));
}

#[test]
fn sort_changes_leaves_out_changes_with_unknown_parents() {
    let a = ChangeId::new(1, 1, 1);
    let missing = ChangeId::new(9, 9, 9);
    let b = ChangeId::new(1, 2, 2);
    let c = ChangeId::new(1, 3, 3);
    let mut parents = ParentMap::new();
    parents.insert(a, vec![]);
    parents.insert(b, vec![missing]);
    parents.insert(c, vec![b]);
    assert_eq!(sort_changes(parents), vec![a]);
}

#[test]
fn sort_changes_leaves_out_cycles() {
    let a = ChangeId::new(1, 1, 1);
    let b = ChangeId::new(1, 2, 2);
    let mut parents = ParentMap::new();
    parents.insert(a, vec![b]);
    parents.insert(b, vec![a]);
    assert!(sort_changes(parents).is_empty());
}

#[test]
fn sort_changes_of_nothing_is_empty() {
    assert!(sort_changes(ParentMap::new()).is_empty());
}

#[test]
fn sort_entries_puts_each_change_after_its_parents() {
    let c1 = ChangeId::new(1, 1, 1);
    let c2 = ChangeId::new(1, 2, 2);
    let c3 = ChangeId::new(2, 1, 1);
    let c4 = ChangeId::new(3, 1, 1);
    let missing = ChangeId::new(9, 9, 9);
    let entries = vec![(c3, vec![c1, c2]), (c2, vec![c1]), (c1, vec![]), (c4, vec![missing])];
    assert_eq!(nitro::change::sort::sort_entries(&entries), vec![c1, c2, c3]);
}
