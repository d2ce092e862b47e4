use std::collections::HashSet;

use excavator::shapes::base_offsets;
use excavator::shapes::expand_pattern;
use excavator::shapes::get_room_offsets;
use excavator::shapes::room_offsets;

fn as_set(cells: &[(i32, i32)]) -> HashSet<(i32, i32)> {
    let set: HashSet<(i32, i32)> = cells.iter().copied().collect();
    assert_eq!(set.len(), cells.len(), "a cell is listed twice");
    set
}

#[test]
fn size_one_gives_the_pattern_itself() {
    let offsets = get_room_offsets(1, "8".to_string());
    assert_eq!(offsets, vec![(-2, 0), (2, 0), (0, -2), (0, 2)]);
    for symbol in ('0'..='9').chain('a'..='z') {
        assert_eq!(as_set(&room_offsets(1, symbol)), as_set(&base_offsets(symbol)));
    }
}

#[test]
fn size_two_gives_a_block_around_each_offset() {
    for symbol in ('0'..='9').chain('a'..='z') {
        let mut expected = HashSet::new();
        for (bx, by) in base_offsets(symbol) {
            for dx in -1..=1 {
                for dy in -1..=1 {
                    expected.insert((bx + dx, by + dy));
                }
            }
        }
        assert_eq!(as_set(&room_offsets(2, symbol)), expected, "{symbol}");
    }
    let point = get_room_offsets(2, "0".to_string());
    assert_eq!(
        point,
        vec![(-1, -1), (-1, 0), (-1, 1), (0, -1), (0, 0), (0, 1), (1, -1), (1, 0), (1, 1)]
    );
}

#[test]
fn overlapping_blocks_are_listed_once() {
    // the offsets of `1` are two apart, so their blocks of size 2 share a row
    let offsets = get_room_offsets(2, "1".to_string());
    assert_eq!(offsets.len(), 15);
    let set = as_set(&offsets);
    for x in -1..=1 {
        for y in -2..=2 {
            assert!(set.contains(&(x, y)));
        }
    }
    // the four offsets of `7` are neighbours of the center
    assert_eq!(as_set(&get_room_offsets(3, "7".to_string())).len(), 45);
}

#[test]
fn size_zero_gives_nothing() {
    for symbol in ('0'..='9').chain('a'..='z') {
        assert!(room_offsets(0, symbol).is_empty());
    }
    assert!(get_room_offsets(0, "a".to_string()).is_empty());
}

#[test]
fn growth_is_by_area_not_by_scale() {
    let offsets = as_set(&get_room_offsets(3, "a".to_string()));
    // scaling the cross by 3 would give (0, 3); growing it gives the filled squares
    assert!(offsets.contains(&(0, 3)));
    assert!(offsets.contains(&(0, 0)));
    assert!(offsets.contains(&(2, 2)));
    assert!(offsets.contains(&(-3, 2)));
    assert!(!offsets.contains(&(3, 3)));
    assert!(!offsets.contains(&(0, 4)));
    // seven by five cells across, five by seven down, and five by five in both
    assert_eq!(offsets.len(), 35 + 35 - 25);
}

#[test]
fn unknown_shapes_are_empty() {
    assert!(get_room_offsets(3, "".to_string()).is_empty());
    assert!(get_room_offsets(3, "ab".to_string()).is_empty());
    assert!(get_room_offsets(3, "!".to_string()).is_empty());
    assert!(get_room_offsets(3, "é".to_string()).is_empty());
    assert!(room_offsets(3, '-').is_empty());
    assert!(base_offsets('_').is_empty());
}

#[test]
fn case_of_a_shape_does_not_matter() {
    for (upper, lower) in ('A'..='Z').zip('a'..='z') {
        assert_eq!(base_offsets(upper), base_offsets(lower));
        assert_eq!(
            get_room_offsets(2, upper.to_string()),
            get_room_offsets(2, lower.to_string())
        );
    }
}

#[test]
fn patterns_of_some_symbols() {
    assert_eq!(base_offsets('0'), vec![(0, 0)]);
    assert_eq!(base_offsets('9'), vec![(-3, 0), (3, 0), (0, -3), (0, 3)]);
    assert_eq!(base_offsets('g'), vec![(-1, 0), (-2, 0), (-3, 0)]);
    assert_eq!(base_offsets('m'), vec![(-1, -1), (0, 1), (1, 0), (-1, 1)]);
    assert_eq!(base_offsets('z'), vec![(-1, 0), (0, 1), (1, 0)]);
}

#[test]
fn a_pattern_of_ones_own_is_grown_alike() {
    let pattern = vec![(10, 10), (10, 11), (-5, 7)];
    let offsets = as_set(&expand_pattern(&pattern, 2));
    assert_eq!(offsets.len(), 9 + 3 + 9);
    assert!(offsets.contains(&(11, 12)));
    assert!(offsets.contains(&(-6, 6)));
    assert!(!offsets.contains(&(8, 10)));
    assert!(expand_pattern(&Vec::new(), 5).is_empty());
}
