use excavator::decode::coordinate;
use excavator::decode::room_size;
use excavator::error::DecodeError;
use excavator::rounding::rounded_root;

#[test]
fn rounded_root_of_small_numbers() {
    assert_eq!(rounded_root(0, 1), 0);
    assert_eq!(rounded_root(1, 1), 1);
    assert_eq!(rounded_root(2, 1), 1);
    assert_eq!(rounded_root(3, 1), 2);
    assert_eq!(rounded_root(4, 1), 2);
    assert_eq!(rounded_root(6, 1), 2);
    assert_eq!(rounded_root(7, 1), 3);
    assert_eq!(rounded_root(100, 1), 10);
}

#[test]
fn rounded_root_sends_halves_up() {
    // sqrt(9/4) = 1.5, sqrt(1/4) = 0.5, sqrt(25/4) = 2.5, sqrt(36/16) = 1.5
    assert_eq!(rounded_root(9, 4), 2);
    assert_eq!(rounded_root(1, 4), 1);
    assert_eq!(rounded_root(25, 4), 3);
    assert_eq!(rounded_root(36, 16), 2);
    assert_eq!(rounded_root(4, 16), 1);
    assert_eq!(rounded_root(3, 16), 0);
}

#[test]
fn rounded_root_at_the_ends_of_the_range() {
    assert_eq!(rounded_root(u32::MAX, 1), 65536);
    assert_eq!(rounded_root(u32::MAX, u32::MAX), 1);
    assert_eq!(rounded_root(1, u32::MAX), 0);
    assert_eq!(rounded_root(0, u32::MAX), 0);
    assert_eq!(rounded_root(u32::MAX, 4), 32768);
}

#[test]
fn rounded_root_agrees_with_floating_point() {
    for num in 0..5000u32 {
        for den in [1u32, 2, 3, 4, 7, 16] {
            let exact = (num as f64 / den as f64).sqrt();
            assert_eq!(rounded_root(num, den), exact.round() as u32, "{num}/{den}");
        }
    }
}

#[test]
fn coordinate_is_the_rounded_multiple_of_the_root() {
    for value in 0..36u32 {
        for rooms in 0..=37u32 {
            let expected = (value as f64 * (rooms as f64).sqrt()).round() as i32;
            assert_eq!(coordinate(value, rooms), expected, "{value} {rooms}");
        }
    }
    assert_eq!(coordinate(35, 37), 213);
    assert_eq!(coordinate(26, 28), 138);
    assert_eq!(coordinate(1, 2), 1);
    assert_eq!(coordinate(0, 37), 0);
}

#[test]
fn room_size_follows_the_formula() {
    for value in 0..36u32 {
        for rooms in 2..=37u32 {
            let expected = 2 + ((value as f64).sqrt() * 1.5).round() as i32
                - ((rooms as f64).sqrt() / 4.0).round() as i32;
            assert!(expected >= 0);
            assert_eq!(room_size(value, rooms), Ok(expected as u32), "{value} {rooms}");
        }
    }
    assert_eq!(room_size(0, 2), Ok(2));
    assert_eq!(room_size(1, 2), Ok(4));
    assert_eq!(room_size(9, 2), Ok(7));
    assert_eq!(room_size(35, 3), Ok(11));
    assert_eq!(room_size(35, 4), Ok(10));
    assert_eq!(room_size(0, 37), Ok(0));
    assert_eq!(room_size(0, 36), Ok(0));
    assert_eq!(room_size(0, 35), Ok(1));
}

#[test]
fn room_size_below_zero_is_refused() {
    // a quarter of the root of 1000 is 7.9, which leaves 2 - 8
    assert_eq!(room_size(0, 1000), Err(DecodeError::InvalidCharacter));
    // with 100 rooms the size of the least symbol is 2 - 3
    assert_eq!(room_size(0, 100), Err(DecodeError::InvalidCharacter));
    assert_eq!(room_size(0, 99), Ok(0));
    assert_eq!(room_size(35, 1000), Ok(3));
    assert_eq!(room_size(35, u32::MAX), Err(DecodeError::InvalidCharacter));
}
