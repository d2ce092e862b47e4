//! Tunnels between room centers.
//!
//! Rooms are joined in pairs, in the order in which they were decoded: the
//! first with the second, the third with the fourth, and so on; a last room
//! without a partner gets no tunnel. A tunnel runs from the first center along
//! x until it is level with the second, then along y, and stops one cell short
//! of the second center.

use vstd::prelude::*;

verus! {

/// How far apart two coordinates are.
pub open spec fn distance(a: int, b: int) -> int {
    if a <= b {
        b - a
    } else {
        a - b
    }
}

/// The coordinate reached from `from` after `steps` unit steps toward `to`.
pub open spec fn step_toward(from: int, to: int, steps: int) -> int {
    if from <= to {
        from + steps
    } else {
        from - steps
    }
}

/// The cells of the tunnel from `start` to `end`, in the order in which they
/// are dug: first those along x, at the height of `start`, then those along
/// y, in the column of `end`. `end` itself is not among them.
pub open spec fn tunnel_path(start: (i32, i32), end: (i32, i32)) -> Seq<(i32, i32)> {
    let across = distance(start.0 as int, end.0 as int);
    let along = distance(start.1 as int, end.1 as int);
    Seq::new(
        (across + along) as nat,
        |i: int|
            if i < across {
                (step_toward(start.0 as int, end.0 as int, i) as i32, start.1)
            } else {
                (end.0, step_toward(start.1 as int, end.1 as int, i - across) as i32)
            },
    )
}

/// The `k`-th tunnel between centers: that from center `2k` to center
/// `2k + 1`.
pub open spec fn tunnel_of(centers: Seq<(i32, i32)>, k: int) -> Seq<(i32, i32)> {
    tunnel_path(centers[2 * k], centers[2 * k + 1])
}

/// A tunnel has as many cells as its ends are apart, counted along x and y;
/// it starts at `start` unless it is empty, and does not reach `end`.
pub proof fn lemma_tunnel_path_ends(start: (i32, i32), end: (i32, i32))
    ensures
        tunnel_path(start, end).len() == distance(start.0 as int, end.0 as int) + distance(
            start.1 as int,
            end.1 as int,
        ),
        start == end <==> tunnel_path(start, end).len() == 0,
        start != end ==> tunnel_path(start, end)[0] == start,
        !tunnel_path(start, end).contains(end),
{
    let path = tunnel_path(start, end);
    if path.contains(end) {
        let i = choose|i: int| 0 <= i < path.len() && path[i] == end;
        assert(path[i] == end);
    }
}

/// Digs the tunnel from `start` to `end`.
pub fn create_tunnel(start: (i32, i32), end: (i32, i32)) -> (tunnel: Vec<(i32, i32)>)
    ensures
        tunnel@ == tunnel_path(start, end),
{
    let ghost path = tunnel_path(start, end);
    let ghost across = distance(start.0 as int, end.0 as int);
    let ghost along = distance(start.1 as int, end.1 as int);
    let mut tunnel: Vec<(i32, i32)> = Vec::new();
    let mut x: i32 = start.0;
    let mut y: i32 = start.1;
    while x != end.0
        invariant
            path == tunnel_path(start, end),
            across == distance(start.0 as int, end.0 as int),
            along == distance(start.1 as int, end.1 as int),
            y == start.1,
            distance(start.0 as int, x as int) <= across,
            x == step_toward(start.0 as int, end.0 as int, distance(start.0 as int, x as int)),
            tunnel@ == path.take(distance(start.0 as int, x as int)),
        decreases distance(x as int, end.0 as int),
    {
        let ghost dug = distance(start.0 as int, x as int);
        tunnel.push((x, y));
        if x < end.0 {
            x = x + 1;
        } else {
            x = x - 1;
        }
        assert(tunnel@ =~= path.take(dug + 1));
    }
    while y != end.1
        invariant
            path == tunnel_path(start, end),
            across == distance(start.0 as int, end.0 as int),
            along == distance(start.1 as int, end.1 as int),
            x == end.0,
            distance(start.1 as int, y as int) <= along,
            y == step_toward(start.1 as int, end.1 as int, distance(start.1 as int, y as int)),
            tunnel@ == path.take(across + distance(start.1 as int, y as int)),
        decreases distance(y as int, end.1 as int),
    {
        let ghost dug = across + distance(start.1 as int, y as int);
        tunnel.push((x, y));
        if y < end.1 {
            y = y + 1;
        } else {
            y = y - 1;
        }
        assert(tunnel@ =~= path.take(dug + 1));
    }
    assert(tunnel@ =~= path);
    tunnel
}

/// Digs the tunnels that join the room centers in pairs.
pub fn generate_tunnels(room_centers: &Vec<(i32, i32)>) -> (tunnels: Vec<Vec<(i32, i32)>>)
    ensures
        tunnels@.len() == room_centers@.len() / 2,
        forall|k: int|
            0 <= k < tunnels@.len() ==> (#[trigger] tunnels@[k])@ == tunnel_of(room_centers@, k),
{
    let mut tunnels: Vec<Vec<(i32, i32)>> = Vec::new();
    let mut i: usize = 0;
    while i < room_centers.len() && i + 1 < room_centers.len()
        invariant
            i % 2 == 0,
            i <= room_centers@.len(),
            tunnels@.len() == i / 2,
            forall|k: int|
                0 <= k < tunnels@.len() ==> (#[trigger] tunnels@[k])@ == tunnel_of(room_centers@, k),
        decreases room_centers@.len() - i,
    {
        let tunnel = create_tunnel(room_centers[i], room_centers[i + 1]);
        tunnels.push(tunnel);
        i = i + 2;
    }
    tunnels
}

} // verus!
