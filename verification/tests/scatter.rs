use std::collections::HashSet;

use excavator::error::DecodeError;
use excavator::scatter::add_random_excavated_points;
use excavator::scatter::draw_candidates;
use excavator::scatter::draw_for;
use excavator::scatter::scatter_cells;
use rand::rngs::StdRng;
use rand::SeedableRng;

#[test]
fn candidates_are_taken_in_order() {
    let existing = vec![(0, 0), (1, 1), (0, 0)];
    // occupied, outside the box, free, taken already, free, free, not wanted any more
    let candidates = vec![(0, 0), (5, 5), (2, 2), (2, 2), (1, 0), (0, 1), (2, 1)];
    let cells = scatter_cells(existing, (0, 2), (0, 2), 3, &candidates).unwrap();
    assert_eq!(cells, vec![(0, 0), (1, 1), (2, 2), (1, 0), (0, 1)]);
}

#[test]
fn box_is_gone_through_when_candidates_run_out() {
    let cells = scatter_cells(vec![(0, 0)], (0, 1), (0, 1), 2, &Vec::new()).unwrap();
    assert_eq!(cells, vec![(0, 0), (0, 1), (1, 0)]);
    let cells = scatter_cells(vec![(1, 0)], (0, 1), (0, 2), 4, &vec![(1, 2), (1, 0)]).unwrap();
    assert_eq!(cells, vec![(1, 0), (1, 2), (0, 0), (0, 1), (0, 2)]);
}

#[test]
fn full_box_takes_exactly_what_is_free() {
    let cells = scatter_cells(vec![(0, 0)], (0, 1), (0, 1), 3, &vec![(1, 1)]).unwrap();
    assert_eq!(cells, vec![(0, 0), (1, 1), (0, 1), (1, 0)]);
    assert_eq!(
        scatter_cells(vec![(0, 0)], (0, 1), (0, 1), 4, &vec![(1, 1)]),
        Err(DecodeError::ScatterCapacityExceeded)
    );
}

#[test]
fn cells_outside_the_box_take_no_room() {
    let existing = vec![(7, 7), (-1, 0), (0, 2), (7, 7)];
    let cells = scatter_cells(existing, (0, 1), (0, 1), 4, &Vec::new()).unwrap();
    assert_eq!(cells, vec![(7, 7), (-1, 0), (0, 2), (0, 0), (0, 1), (1, 0), (1, 1)]);
}

#[test]
fn nothing_wanted_lists_each_cell_once() {
    let existing = vec![(3, 3), (1, 2), (3, 3), (1, 2), (0, 0)];
    let cells = scatter_cells(existing, (0, 9), (0, 9), 0, &vec![(5, 5)]).unwrap();
    assert_eq!(cells, vec![(3, 3), (1, 2), (0, 0)]);
}

#[test]
fn empty_box_has_room_for_nothing() {
    assert_eq!(scatter_cells(vec![(0, 0)], (1, 0), (0, 5), 0, &Vec::new()), Ok(vec![(0, 0)]));
    assert_eq!(
        scatter_cells(vec![(0, 0)], (1, 0), (0, 5), 1, &vec![(1, 1)]),
        Err(DecodeError::ScatterCapacityExceeded)
    );
    assert_eq!(
        scatter_cells(Vec::new(), (0, 5), (3, 2), 1, &Vec::new()),
        Err(DecodeError::ScatterCapacityExceeded)
    );
    let mut rng = StdRng::seed_from_u64(1);
    assert_eq!(
        add_random_excavated_points(Vec::new(), (0, 5), (3, 2), 1, &mut rng),
        Err(DecodeError::ScatterCapacityExceeded)
    );
    assert_eq!(add_random_excavated_points(vec![(1, 1)], (0, 5), (3, 2), 0, &mut rng), Ok(vec![(1, 1)]));
}

#[test]
fn widest_box_is_no_trouble() {
    let whole = (i32::MIN, i32::MAX);
    let cells = scatter_cells(vec![(i32::MIN, i32::MIN)], whole, whole, 2, &Vec::new()).unwrap();
    assert_eq!(cells, vec![(i32::MIN, i32::MIN), (i32::MIN, i32::MIN + 1), (i32::MIN, i32::MIN + 2)]);
    let cells = scatter_cells(Vec::new(), whole, (7, 7), 2, &vec![(i32::MAX, 7)]).unwrap();
    assert_eq!(cells, vec![(i32::MAX, 7), (i32::MIN, 7)]);
}

#[test]
fn random_cells_are_new_and_in_the_box() {
    let existing = vec![(0, 0), (1, 1), (0, 0), (20, 20), (3, 4)];
    let mut rng = StdRng::seed_from_u64(7);
    let cells = add_random_excavated_points(existing.clone(), (0, 9), (-4, 4), 30, &mut rng).unwrap();
    assert_eq!(cells.len(), 4 + 30);
    assert_eq!(&cells[..4], &[(0, 0), (1, 1), (20, 20), (3, 4)]);
    let set: HashSet<(i32, i32)> = cells.iter().copied().collect();
    assert_eq!(set.len(), cells.len());
    for &(x, y) in &cells[4..] {
        assert!((0..=9).contains(&x) && (-4..=4).contains(&y));
        assert!(!existing.contains(&(x, y)));
    }
}

#[test]
fn random_cells_fill_a_box_to_the_last_cell() {
    let existing = vec![(0, 0), (1, 1)];
    let mut rng = StdRng::seed_from_u64(3);
    let cells = add_random_excavated_points(existing.clone(), (0, 9), (0, 9), 98, &mut rng).unwrap();
    let set: HashSet<(i32, i32)> = cells.iter().copied().collect();
    assert_eq!(set.len(), 100);
    let mut rng = StdRng::seed_from_u64(3);
    assert_eq!(
        add_random_excavated_points(existing, (0, 9), (0, 9), 99, &mut rng),
        Err(DecodeError::ScatterCapacityExceeded)
    );
}

#[test]
fn same_seed_gives_the_same_cells() {
    let existing = vec![(2, 2), (3, 3)];
    let mut first = StdRng::seed_from_u64(42);
    let mut second = StdRng::seed_from_u64(42);
    let a = add_random_excavated_points(existing.clone(), (0, 50), (0, 50), 40, &mut first);
    let b = add_random_excavated_points(existing, (0, 50), (0, 50), 40, &mut second);
    assert_eq!(a, b);
    assert_eq!(a.unwrap().len(), 42);
}

#[test]
fn drawn_candidates_lie_in_the_box_and_vary() {
    let mut rng = StdRng::seed_from_u64(5);
    let candidates = draw_candidates(&mut rng, (10, 19), (-3, 3), 500);
    assert_eq!(candidates.len(), 500);
    for &(x, y) in &candidates {
        assert!((10..=19).contains(&x) && (-3..=3).contains(&y));
    }
    let distinct: HashSet<(i32, i32)> = candidates.iter().copied().collect();
    assert!(distinct.len() > 35, "only {} of 70 cells drawn", distinct.len());
    assert!(candidates.iter().any(|&(x, _)| x != 10 && x != 19));
    assert!(candidates.iter().any(|&(_, y)| y != -3 && y != 3));
    let single = draw_candidates(&mut rng, (4, 4), (-9, -9), 3);
    assert_eq!(single, vec![(4, -9); 3]);
}

#[test]
fn four_candidates_are_drawn_for_each_wanted_cell() {
    let mut rng = StdRng::seed_from_u64(5);
    assert_eq!(draw_for(&mut rng, (0, 3), (0, 3), 0).len(), 0);
    assert_eq!(draw_for(&mut rng, (0, 3), (0, 3), 5).len(), 20);
    assert_eq!(draw_for(&mut rng, (0, 3), (0, 3), 391).len(), 1564);
    assert_eq!(draw_for(&mut rng, (3, 0), (0, 3), 5).len(), 0);
    assert_eq!(draw_for(&mut rng, (0, 3), (1, 0), 5).len(), 0);
}
