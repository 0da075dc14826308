use nitro::index_map::{IndexMap, IndexMapper, IndexRef};

#[test]
fn test_index_mapper_1() {
    let mut mapper = IndexMapper::default();
    mapper.push(IndexMap::insert(0));
    mapper.push(IndexMap::insert(1));

    // index compression merge the two maps, so the after is 1 for both insertions
    assert_eq!(mapper.map(0, 1), 3);
    assert_eq!(mapper.map(1, 0), 0);
}

#[test]
fn test_index_mapper_2() {
    let mut mapper = IndexMapper::default();
    // all the indexes after 10 should be increased by 1
    mapper.push(IndexMap::insert(10));

    assert_eq!(mapper.map(0, 0), 0);
    assert_eq!(mapper.map(0, 9), 9);
    assert_eq!(mapper.map(0, 10), 11);
    assert_eq!(mapper.map(0, 13), 14);
    assert_eq!(mapper.map(1, 10), 10);
    assert_eq!(mapper.map(1, 11), 11);
}

#[test]
fn test_index_mapper_ranges() {
    let mut mapper = IndexMapper::default();
    mapper.push(IndexMap::insert(0));
    mapper.push(IndexMap::insert(3));
    mapper.push(IndexMap::insert(5));
    mapper.push(IndexMap::insert(8));
}

#[test]
fn test_index_mapper_ranges_2() {
    let mut mapper = IndexMapper::default();
    mapper.push(IndexMap::insert(0));
    mapper.push(IndexMap::insert(3));
    mapper.push(IndexMap::insert(5));
    mapper.push(IndexMap::insert(8));

    assert_eq!(mapper.map(0, 2), 4);
    assert_eq!(mapper.map(0, 3), 6);

    mapper.push(IndexMap::insert(2));
}

#[test]
fn unmap_undoes_map() {
    let mut mapper = IndexMapper::new();
    mapper.push(IndexMap::insert(0));
    mapper.push(IndexMap::insert(3));
    mapper.push(IndexMap::insert(5));
    for i in 0..20usize {
        let m = mapper.map(0, i);
        assert_eq!(mapper.unmap(m), i);
    }
}

#[test]
fn reset_keeps_the_first_map() {
    let mut mapper = IndexMapper::new();
    assert_eq!(mapper.push(IndexMap::insert(4)), 1);
    assert_eq!(mapper.len(), 2);
    mapper.reset();
    assert_eq!(mapper.len(), 1);
    assert_eq!(mapper.map(0, 7), 7);
}

#[test]
fn index_refs_follow_later_insertions() {
    let mut mapper = IndexMapper::new();
    let r = IndexRef::new(5, 0);
    mapper.push(IndexMap::insert(2));
    mapper.push(IndexMap::insert(9));
    assert_eq!(mapper.map_ref(&r), 6);
}

#[test]
fn single_map_moves_positions_at_or_after_the_insertion() {
    let m = IndexMap::insert(4);
    assert_eq!(m.map(3), 3);
    assert_eq!(m.map(4), 5);
    assert_eq!(m.unmap(5), 4);
    assert_eq!(m.unmap(2), 2);
}
