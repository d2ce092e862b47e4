use excavator::cells::CellSet;

#[test]
fn cell_set_keeps_the_first_of_equal_cells() {
    let mut set = CellSet::new();
    assert_eq!(set.len(), 0);
    assert!(set.insert((1, 2)));
    assert!(set.insert((2, 1)));
    assert!(!set.insert((1, 2)));
    assert!(set.insert((-1, 2)));
    assert!(set.contains((2, 1)));
    assert!(!set.contains((2, 2)));
    assert_eq!(set.len(), 3);
    assert_eq!(set.into_cells(), vec![(1, 2), (2, 1), (-1, 2)]);
}

#[test]
fn cell_set_tells_apart_cells_at_the_ends_of_the_grid() {
    let corners = [
        (i32::MIN, i32::MIN),
        (i32::MIN, i32::MAX),
        (i32::MAX, i32::MIN),
        (i32::MAX, i32::MAX),
        (0, -1),
        (-1, 0),
        (0, 0),
        (-1, -1),
        (0, i32::MIN),
        (-1, i32::MAX),
    ];
    let mut set = CellSet::new();
    for corner in corners {
        assert!(set.insert(corner), "{corner:?}");
    }
    for corner in corners {
        assert!(set.contains(corner));
        assert!(!set.insert(corner));
    }
    assert_eq!(set.len(), corners.len());
    assert!(!set.contains((1, i32::MIN)));
}
