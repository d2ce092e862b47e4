use excavator::tunnels::create_tunnel;
use excavator::tunnels::generate_tunnels;

#[test]
fn tunnel_runs_along_x_then_along_y() {
    assert_eq!(create_tunnel((0, 0), (3, 2)), vec![(0, 0), (1, 0), (2, 0), (3, 0), (3, 1)]);
}

#[test]
fn tunnel_runs_toward_smaller_coordinates_too() {
    assert_eq!(create_tunnel((3, 2), (0, 0)), vec![(3, 2), (2, 2), (1, 2), (0, 2), (0, 1)]);
    assert_eq!(create_tunnel((-1, 4), (1, 2)), vec![(-1, 4), (0, 4), (1, 4), (1, 3)]);
}

#[test]
fn tunnel_between_equal_ends_is_empty() {
    assert!(create_tunnel((5, -7), (5, -7)).is_empty());
}

#[test]
fn tunnel_along_one_axis_only() {
    assert_eq!(create_tunnel((2, 2), (2, 5)), vec![(2, 2), (2, 3), (2, 4)]);
    assert_eq!(create_tunnel((2, 2), (0, 2)), vec![(2, 2), (1, 2)]);
}

#[test]
fn tunnel_at_the_ends_of_the_grid() {
    let tunnel = create_tunnel((i32::MAX - 2, i32::MIN + 1), (i32::MAX, i32::MIN));
    assert_eq!(
        tunnel,
        vec![(i32::MAX - 2, i32::MIN + 1), (i32::MAX - 1, i32::MIN + 1), (i32::MAX, i32::MIN + 1)]
    );
}

#[test]
fn rooms_are_joined_in_pairs() {
    let centers = vec![(0, 0), (2, 1), (5, 5), (5, 3), (9, 9)];
    let tunnels = generate_tunnels(&centers);
    assert_eq!(tunnels, vec![vec![(0, 0), (1, 0), (2, 0)], vec![(5, 5), (5, 4)]]);
}

#[test]
fn fewer_than_two_rooms_get_no_tunnel() {
    assert!(generate_tunnels(&Vec::new()).is_empty());
    assert!(generate_tunnels(&vec![(1, 1)]).is_empty());
    assert_eq!(generate_tunnels(&vec![(1, 1), (1, 1)]), vec![Vec::new()]);
}
