use rogue_swarm::spatial_hash::SpatialHash;

#[test]
fn neighbors_cover_the_three_by_three_block() {
    let mut h = SpatialHash::new();
    h.insert(1, (4, 4));
    h.insert(2, (3, 3));
    h.insert(3, (5, 5));
    h.insert(4, (6, 4));
    h.insert(5, (4, 2));
    let mut n = h.get_neighbors((4, 4));
    n.sort();
    assert_eq!(n, vec![1, 2, 3]);
}

#[test]
fn neighbors_come_column_by_column_in_insertion_order() {
    let mut h = SpatialHash::new();
    h.insert(10, (1, 1));
    h.insert(11, (0, 0));
    h.insert(12, (1, 0));
    h.insert(13, (0, 0));
    h.insert(14, (-1, 1));
    // Columns -1, 0, 1; in each, rows -1, 0, 1.
    assert_eq!(h.get_neighbors((0, 0)), vec![14, 11, 13, 12, 10]);
}

#[test]
fn inserted_entity_is_found_from_every_adjacent_cell() {
    let mut h = SpatialHash::new();
    h.insert(42, (-7, 9));
    for dx in -1..=1 {
        for dy in -1..=1 {
            assert_eq!(h.get_neighbors((-7 + dx, 9 + dy)), vec![42]);
        }
    }
    assert!(h.get_neighbors((-5, 9)).is_empty());
    assert!(h.get_neighbors((-7, 11)).is_empty());
}

#[test]
fn clear_empties_every_cell() {
    let mut h = SpatialHash::new();
    h.insert(1, (0, 0));
    h.insert(2, (100, -100));
    h.clear();
    assert!(h.get_neighbors((0, 0)).is_empty());
    assert!(h.get_neighbors((100, -100)).is_empty());
}

#[test]
fn extreme_cells_are_kept_apart() {
    let mut h = SpatialHash::new();
    h.insert(1, (i32::MIN, i32::MAX));
    h.insert(2, (i32::MAX, i32::MIN));
    h.insert(3, (-1, 0));
    h.insert(4, (0, -1));
    assert_eq!(h.get_neighbors((i32::MIN + 1, i32::MAX - 1)), vec![1]);
    assert_eq!(h.get_neighbors((i32::MAX - 1, i32::MIN + 1)), vec![2]);
    assert_eq!(h.get_neighbors((-2, 1)), vec![3]);
    assert_eq!(h.get_neighbors((1, -2)), vec![4]);
}

#[test]
fn repeated_inserts_are_counted_once_each() {
    let mut h = SpatialHash::new();
    h.insert(5, (0, 0));
    h.insert(5, (1, 1));
    h.insert(5, (3, 3));
    h.insert(6, (-1, 0));
    let mut n = h.get_neighbors((0, 0));
    n.sort();
    assert_eq!(n, vec![5, 5, 6]);
    let mut far = h.get_neighbors((2, 2));
    far.sort();
    assert_eq!(far, vec![5, 5]);
}
