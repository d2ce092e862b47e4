//! From a token to a dungeon.
//!
//! The fields are read off the token; the rooms are dug, each around its
//! center, and the tunnels between them; extra cells are scattered in the box
//! around the centers, one for every 50 units of room area; biome and level
//! are looked up. A token that cannot be read gives no dungeon, and neither
//! does one whose box has too few free cells for the scattered ones.

use rand::rngs::StdRng;
use vstd::prelude::*;
use crate::cells::distinct;
use crate::cells::lemma_distinct;
use crate::cells::lemma_push_contains;
use crate::classify::biome_for;
use crate::classify::biome_name;
use crate::classify::get_dungeon_level;
use crate::classify::level_of;
use crate::decode::centers_of;
use crate::decode::decode_failure;
use crate::decode::decode_token;
use crate::decode::decodes_to;
use crate::decode::lemma_decoded_bounds;
use crate::decode::lemma_fields_determined;
use crate::decode::lemma_range_unique;
use crate::decode::shapes_of;
use crate::decode::sizes_of;
use crate::decode::total_area;
use crate::decode::x_range_of;
use crate::decode::y_range_of;
use crate::decode::TokenFields;
use crate::error::DecodeError;
use crate::scatter::add_random_excavated_points;
use crate::scatter::free_cells;
use crate::scatter::lemma_scatters_to;
use crate::scatter::scatter_cells;
use crate::scatter::scattered;
use crate::scatter::scatters_to;
use crate::shapes::base_pattern;
use crate::shapes::covers;
use crate::shapes::in_square;
use crate::shapes::lemma_base_pattern_small;
use crate::shapes::room_offsets;
use crate::shapes::MAX_ROOM_SIZE;
use crate::tunnels::generate_tunnels;
use crate::tunnels::tunnel_of;

verus! {

/// A dungeon: what its token says of it, and what was made of that.
#[derive(Debug)]
pub struct Dungeon {
    /// What the token says: rooms, box, area and letters.
    pub fields: TokenFields,
    /// The biome, named after the dominant letter of the token.
    pub dungeon_type: String,
    /// The level, from the total area of the rooms.
    pub dungeon_level: u64,
    /// The excavated cells: those of the rooms, of the tunnels and the
    /// scattered ones, each once.
    pub excavated: Vec<(i32, i32)>,
}

/// Whether a room with the given center, size and shape covers `cell`.
pub open spec fn room_covers(center: (i32, i32), size: u32, shape: char, cell: (i32, i32)) -> bool {
    covers(base_pattern(shape), size as int, (cell.0 - center.0, cell.1 - center.1))
}

/// Whether one of the first `count` rooms covers `cell`.
pub open spec fn in_rooms(
    centers: Seq<(i32, i32)>,
    sizes: Seq<u32>,
    shapes: Seq<char>,
    count: int,
    cell: (i32, i32),
) -> bool {
    exists|k: int| 0 <= k < count && #[trigger] room_covers(centers[k], sizes[k], shapes[k], cell)
}

/// Whether one of the first `count` tunnels between the centers runs through
/// `cell`.
pub open spec fn in_tunnels(centers: Seq<(i32, i32)>, count: int, cell: (i32, i32)) -> bool {
    exists|k: int| 0 <= k < count && (#[trigger] tunnel_of(centers, k)).contains(cell)
}

/// The cells of the rooms and of the tunnels between them.
pub open spec fn structure(centers: Seq<(i32, i32)>, sizes: Seq<u32>, shapes: Seq<char>) -> Set<
    (i32, i32),
> {
    Set::new(
        |cell: (i32, i32)|
            in_rooms(centers, sizes, shapes, centers.len() as int, cell) || in_tunnels(
                centers,
                centers.len() as int / 2,
                cell,
            ),
    )
}

/// The cells of the rooms and tunnels of the dungeon of `s`.
pub open spec fn structure_of(s: Seq<char>) -> Set<(i32, i32)> {
    structure(centers_of(s), sizes_of(s), shapes_of(s))
}

/// The number of cells that are scattered in the dungeon of `s`: one for
/// every 50 units of room area.
pub open spec fn scatter_count(s: Seq<char>) -> nat {
    (total_area(sizes_of(s)) / 50) as nat
}

/// Why `s` gives no dungeon, if it gives none: because it cannot be read,
/// or because the box around its room centers has fewer free cells than are
/// to be scattered in it.
pub open spec fn dungeon_failure(s: Seq<char>) -> Option<DecodeError> {
    if decode_failure(s) is Some {
        decode_failure(s)
    } else if free_cells(structure_of(s), x_range_of(centers_of(s)), y_range_of(centers_of(s)))
        < scatter_count(s) {
        Some(DecodeError::ScatterCapacityExceeded)
    } else {
        None
    }
}

/// The biome of a dungeon with the given dominant letter.
pub open spec fn biome_of_letter(dominant: Option<char>) -> Seq<char> {
    match dominant {
        Some(letter) => biome_name(letter),
        None => "Unknown"@,
    }
}

/// `dungeon` is the dungeon of `s` with cells scattered from `candidates`.
pub open spec fn depicts(s: Seq<char>, candidates: Seq<(i32, i32)>, dungeon: Dungeon) -> bool {
    &&& decodes_to(s, dungeon.fields)
    &&& dungeon.dungeon_type@ == biome_of_letter(dungeon.fields.dominant)
    &&& dungeon.dungeon_level == level_of(dungeon.fields.area as nat)
    &&& dungeon.excavated@.no_duplicates()
    &&& dungeon.excavated@.to_set() == structure_of(s).union(
        scattered(
            structure_of(s),
            dungeon.fields.x_range,
            dungeon.fields.y_range,
            scatter_count(s),
            candidates,
        ).to_set(),
    )
    &&& dungeon.excavated@.len() == structure_of(s).len() + scatter_count(s)
}

/// A token and the candidates for its scattered cells give one dungeon: any
/// two dungeons that depict them agree in the fields read off the token, in
/// biome and level, and in the set of their excavated cells.
pub proof fn lemma_dungeon_determined(
    s: Seq<char>,
    candidates: Seq<(i32, i32)>,
    first: Dungeon,
    second: Dungeon,
)
    requires
        depicts(s, candidates, first),
        depicts(s, candidates, second),
    ensures
        first.fields.room_count == second.fields.room_count,
        first.fields.centers@ == second.fields.centers@,
        first.fields.sizes@ == second.fields.sizes@,
        first.fields.shapes@ == second.fields.shapes@,
        first.fields.x_range == second.fields.x_range,
        first.fields.y_range == second.fields.y_range,
        first.fields.area == second.fields.area,
        first.fields.frequency@ == second.fields.frequency@,
        first.fields.dominant == second.fields.dominant,
        first.dungeon_type@ == second.dungeon_type@,
        first.dungeon_level == second.dungeon_level,
        first.excavated@.to_set() == second.excavated@.to_set(),
        first.excavated@.len() == second.excavated@.len(),
{
    lemma_fields_determined(s, first.fields, second.fields);
}

/// Whatever is drawn, a token gives the same rooms, biome and level: two
/// dungeons of one token differ at most in their scattered cells.
pub proof fn lemma_token_determines_rooms(
    s: Seq<char>,
    first_candidates: Seq<(i32, i32)>,
    second_candidates: Seq<(i32, i32)>,
    first: Dungeon,
    second: Dungeon,
)
    requires
        depicts(s, first_candidates, first),
        depicts(s, second_candidates, second),
    ensures
        first.fields.room_count == second.fields.room_count,
        first.fields.centers@ == second.fields.centers@,
        first.fields.sizes@ == second.fields.sizes@,
        first.fields.shapes@ == second.fields.shapes@,
        first.dungeon_type@ == second.dungeon_type@,
        first.dungeon_level == second.dungeon_level,
        first.excavated@.len() == second.excavated@.len(),
        forall|cell: (i32, i32)|
            structure_of(s).contains(cell) ==> first.excavated@.contains(cell)
                && second.excavated@.contains(cell),
{
    lemma_fields_determined(s, first.fields, second.fields);
    assert forall|cell: (i32, i32)| structure_of(s).contains(cell) implies first.excavated@.contains(
        cell,
    ) && second.excavated@.contains(cell) by {
        assert(first.excavated@.to_set().contains(cell));
        assert(second.excavated@.to_set().contains(cell));
    }
}

/// A cell that a room covers is at most the room's size plus 2 away from the
/// center, in either direction.
proof fn lemma_room_reach(shape: char, size: int, offset: (int, int))
    requires
        covers(base_pattern(shape), size, offset),
    ensures
        -(size + 2) <= offset.0 <= size + 2,
        -(size + 2) <= offset.1 <= size + 2,
{
    lemma_base_pattern_small(shape);
    let pattern = base_pattern(shape);
    let j = choose|j: int|
        0 <= j < pattern.len() && j < pattern.len() && #[trigger] in_square(
            offset,
            pattern[j],
            size - 1,
        );
    assert(-3 <= pattern[j].0 <= 3);
}

/// Whether the rooms lie so that all their cells have `i32` coordinates.
pub open spec fn rooms_fit(centers: Seq<(i32, i32)>, sizes: Seq<u32>) -> bool {
    forall|k: int|
        0 <= k < centers.len() ==> {
            &&& (#[trigger] sizes[k]) <= MAX_ROOM_SIZE
            &&& i32::MIN <= centers[k].0 - (sizes[k] + 2)
            &&& centers[k].0 + (sizes[k] + 2) <= i32::MAX
            &&& i32::MIN <= centers[k].1 - (sizes[k] + 2)
            &&& centers[k].1 + (sizes[k] + 2) <= i32::MAX
        }
}

/// Digs the rooms: lists the cells that the rooms cover. A cell that several
/// rooms cover is listed for each of them.
pub fn dig_rooms(centers: &Vec<(i32, i32)>, sizes: &Vec<u32>, shapes: &Vec<char>) -> (cells: Vec<
    (i32, i32),
>)
    requires
        sizes@.len() == centers@.len(),
        shapes@.len() == centers@.len(),
        rooms_fit(centers@, sizes@),
    ensures
        forall|cell: (i32, i32)| #[trigger]
            cells@.contains(cell) <==> in_rooms(
                centers@,
                sizes@,
                shapes@,
                centers@.len() as int,
                cell,
            ),
{
    let mut cells: Vec<(i32, i32)> = Vec::new();
    let mut k: usize = 0;
    while k < centers.len()
        invariant
            k <= centers@.len(),
            sizes@.len() == centers@.len(),
            shapes@.len() == centers@.len(),
            rooms_fit(centers@, sizes@),
            forall|cell: (i32, i32)| #[trigger]
                cells@.contains(cell) <==> in_rooms(centers@, sizes@, shapes@, k as int, cell),
        decreases centers@.len() - k,
    {
        let center = centers[k];
        let size = sizes[k];
        let shape = shapes[k];
        assert(sizes@[k as int] <= MAX_ROOM_SIZE);
        let offsets = room_offsets(size, shape);
        let ghost before = cells@;
        let mut j: usize = 0;
        while j < offsets.len()
            invariant
                j <= offsets@.len(),
                k < centers@.len(),
                center == centers@[k as int],
                size == sizes@[k as int],
                shape == shapes@[k as int],
                sizes@.len() == centers@.len(),
                rooms_fit(centers@, sizes@),
                forall|x: i32, y: i32| #[trigger]
                    offsets@.contains((x, y)) <==> covers(
                        base_pattern(shape),
                        size as int,
                        (x as int, y as int),
                    ),
                forall|cell: (i32, i32)| #[trigger]
                    cells@.contains(cell) <==> before.contains(cell) || exists|i: int|
                        0 <= i < j && cell.0 == center.0 + (#[trigger] offsets@[i]).0 && cell.1
                            == center.1 + offsets@[i].1,
            decreases offsets@.len() - j,
        {
            let offset = offsets[j];
            proof {
                assert(offsets@.contains((offset.0, offset.1)));
                lemma_room_reach(shape, size as int, (offset.0 as int, offset.1 as int));
                assert(sizes@[k as int] <= MAX_ROOM_SIZE);
                lemma_push_contains(cells@, ((center.0 + offset.0) as i32, (center.1 + offset.1) as i32));
            }
            let cell: (i32, i32) = (center.0 + offset.0, center.1 + offset.1);
            let ghost listed = cells@;
            cells.push(cell);
            proof {
                assert forall|c: (i32, i32)| #[trigger]
                    cells@.contains(c) <==> before.contains(c) || exists|i: int|
                        0 <= i < j + 1 && c.0 == center.0 + (#[trigger] offsets@[i]).0 && c.1
                            == center.1 + offsets@[i].1 by {
                    if c == cell {
                        assert(c.0 == center.0 + offsets@[j as int].0 && c.1 == center.1
                            + offsets@[j as int].1);
                    }
                    if listed.contains(c) && !before.contains(c) {
                        let i = choose|i: int|
                            0 <= i < j && c.0 == center.0 + (#[trigger] offsets@[i]).0 && c.1
                                == center.1 + offsets@[i].1;
                        assert(0 <= i < j + 1);
                    }
                    if exists|i: int|
                        0 <= i < j + 1 && c.0 == center.0 + (#[trigger] offsets@[i]).0 && c.1
                            == center.1 + offsets@[i].1 {
                        let i = choose|i: int|
                            0 <= i < j + 1 && c.0 == center.0 + (#[trigger] offsets@[i]).0 && c.1
                                == center.1 + offsets@[i].1;
                        if i < j {
                            assert(listed.contains(c));
                        } else {
                            assert(c == cell);
                        }
                    }
                }
            }
            j = j + 1;
        }
        proof {
            assert forall|cell: (i32, i32)| #[trigger]
                cells@.contains(cell) <==> in_rooms(
                    centers@,
                    sizes@,
                    shapes@,
                    k as int + 1,
                    cell,
                ) by {
                let offset = (cell.0 - center.0, cell.1 - center.1);
                if cells@.contains(cell) && !before.contains(cell) {
                    let i = choose|i: int|
                        0 <= i < offsets@.len() && cell.0 == center.0 + (#[trigger] offsets@[i]).0
                            && cell.1 == center.1 + offsets@[i].1;
                    assert(offsets@.contains((offsets@[i].0, offsets@[i].1)));
                    assert(room_covers(centers@[k as int], sizes@[k as int], shapes@[k as int], cell));
                }
                if before.contains(cell) {
                    let r = choose|r: int|
                        0 <= r < k && #[trigger] room_covers(
                            centers@[r],
                            sizes@[r],
                            shapes@[r],
                            cell,
                        );
                    assert(room_covers(centers@[r], sizes@[r], shapes@[r], cell));
                }
                if in_rooms(centers@, sizes@, shapes@, k as int + 1, cell) {
                    let r = choose|r: int|
                        0 <= r < k + 1 && #[trigger] room_covers(
                            centers@[r],
                            sizes@[r],
                            shapes@[r],
                            cell,
                        );
                    if r < k {
                        assert(in_rooms(centers@, sizes@, shapes@, k as int, cell));
                    } else {
                        lemma_room_reach(shape, size as int, offset);
                        assert(sizes@[k as int] <= MAX_ROOM_SIZE);
                        let x = offset.0 as i32;
                        let y = offset.1 as i32;
                        assert(offsets@.contains((x, y)));
                        let i = choose|i: int| 0 <= i < offsets@.len() && offsets@[i] == (x, y);
                        assert(cell.0 == center.0 + offsets@[i].0 && cell.1 == center.1
                            + offsets@[i].1);
                    }
                }
            }
        }
        k = k + 1;
    }
    cells
}

/// Digs the tunnels between the centers and appends their cells to `cells`.
pub fn dig_tunnels(centers: &Vec<(i32, i32)>, cells: &mut Vec<(i32, i32)>)
    ensures
        forall|cell: (i32, i32)| #[trigger]
            final(cells)@.contains(cell) <==> old(cells)@.contains(cell) || in_tunnels(
                centers@,
                centers@.len() as int / 2,
                cell,
            ),
{
    let ghost before = cells@;
    let tunnels = generate_tunnels(centers);
    let mut k: usize = 0;
    while k < tunnels.len()
        invariant
            k <= tunnels@.len(),
            tunnels@.len() == centers@.len() / 2,
            forall|t: int|
                0 <= t < tunnels@.len() ==> (#[trigger] tunnels@[t])@ == tunnel_of(centers@, t),
            forall|cell: (i32, i32)| #[trigger]
                cells@.contains(cell) <==> before.contains(cell) || in_tunnels(
                    centers@,
                    k as int,
                    cell,
                ),
        decreases tunnels@.len() - k,
    {
        let tunnel = &tunnels[k];
        let ghost path = tunnel@;
        assert(path == tunnel_of(centers@, k as int));
        let ghost dug = cells@;
        let mut j: usize = 0;
        while j < tunnel.len()
            invariant
                j <= path.len(),
                path == tunnel@,
                forall|cell: (i32, i32)| #[trigger]
                    cells@.contains(cell) <==> dug.contains(cell) || path.take(j as int).contains(
                        cell,
                    ),
            decreases path.len() - j,
        {
            proof {
                lemma_push_contains(cells@, path[j as int]);
                lemma_push_contains(path.take(j as int), path[j as int]);
                assert(path.take(j as int).push(path[j as int]) == path.take(j as int + 1));
            }
            cells.push(tunnel[j]);
            j = j + 1;
        }
        proof {
            assert(path.take(path.len() as int) == path);
            assert forall|cell: (i32, i32)| #[trigger]
                cells@.contains(cell) <==> before.contains(cell) || in_tunnels(
                    centers@,
                    k as int + 1,
                    cell,
                ) by {
                if in_tunnels(centers@, k as int + 1, cell) {
                    let t = choose|t: int|
                        0 <= t < k + 1 && (#[trigger] tunnel_of(centers@, t)).contains(cell);
                    if t < k {
                        assert(in_tunnels(centers@, k as int, cell));
                    }
                }
                if in_tunnels(centers@, k as int, cell) {
                    let t = choose|t: int|
                        0 <= t < k && (#[trigger] tunnel_of(centers@, t)).contains(cell);
                    assert(tunnel_of(centers@, t).contains(cell));
                }
                if path.contains(cell) {
                    assert(tunnel_of(centers@, k as int).contains(cell));
                }
            }
        }
        k = k + 1;
    }
}

/// Digs rooms and tunnels: lists the cells of the rooms and of the tunnels
/// between their centers.
pub fn dig_structure(centers: &Vec<(i32, i32)>, sizes: &Vec<u32>, shapes: &Vec<char>) -> (cells:
    Vec<(i32, i32)>)
    requires
        sizes@.len() == centers@.len(),
        shapes@.len() == centers@.len(),
        rooms_fit(centers@, sizes@),
    ensures
        cells@.to_set() == structure(centers@, sizes@, shapes@),
{
    let mut cells = dig_rooms(centers, sizes, shapes);
    dig_tunnels(centers, &mut cells);
    assert(cells@.to_set() =~= structure(centers@, sizes@, shapes@));
    cells
}

/// Digs the rooms and tunnels that the fields of a token describe.
fn dig_fields(fields: &TokenFields, Ghost(s): Ghost<Seq<char>>) -> (cells: Vec<(i32, i32)>)
    requires
        decode_failure(s) is None,
        decodes_to(s, *fields),
    ensures
        cells@.to_set() == structure_of(s),
{
    proof {
        lemma_decoded_bounds(s);
    }
    dig_structure(&fields.centers, &fields.sizes, &fields.shapes)
}

/// Puts a dungeon together from the fields of its token and its excavated
/// cells, and looks up biome and level.
fn assemble(
    fields: TokenFields,
    excavated: Vec<(i32, i32)>,
    Ghost(s): Ghost<Seq<char>>,
    Ghost(existing): Ghost<Seq<(i32, i32)>>,
    Ghost(candidates): Ghost<Seq<(i32, i32)>>,
) -> (dungeon: Dungeon)
    requires
        decode_failure(s) is None,
        decodes_to(s, fields),
        existing.to_set() == structure_of(s),
        free_cells(structure_of(s), fields.x_range, fields.y_range) >= scatter_count(s),
        scatters_to(existing, fields.x_range, fields.y_range, scatter_count(s), candidates, excavated@),
    ensures
        dungeon_failure(s) is None,
        depicts(s, candidates, dungeon),
{
    proof {
        let added = scattered(
            structure_of(s),
            fields.x_range,
            fields.y_range,
            scatter_count(s),
            candidates,
        );
        lemma_range_unique(centers_of(s), fields.x_range);
        lemma_range_unique(centers_of(s), fields.y_range);
        lemma_scatters_to(
            existing,
            fields.x_range,
            fields.y_range,
            scatter_count(s),
            candidates,
            excavated@,
        );
        lemma_distinct(existing);
        assert(distinct(existing).to_set() =~= existing.to_set());
        vstd::seq_lib::seq_to_set_distributes_over_add(distinct(existing), added);
    }
    let dungeon_type = match fields.dominant {
        Some(letter) => biome_for(letter),
        None => "Unknown".to_owned(),
    };
    let dungeon_level = get_dungeon_level(fields.area);
    Dungeon { fields, dungeon_type, dungeon_level, excavated }
}

/// The number of cells to scatter in a dungeon with the given fields.
fn cells_to_scatter(fields: &TokenFields, Ghost(s): Ghost<Seq<char>>) -> (wanted: usize)
    requires
        decode_failure(s) is None,
        decodes_to(s, *fields),
    ensures
        wanted == scatter_count(s),
{
    proof {
        lemma_decoded_bounds(s);
    }
    (fields.area / 50) as usize
}

/// Makes the dungeon of a token, with the scattered cells taken from the
/// given candidates.
pub fn build_dungeon(nft_id: &str, candidates: &Vec<(i32, i32)>) -> (result: Result<
    Dungeon,
    DecodeError,
>)
    ensures
        match result {
            Ok(dungeon) => dungeon_failure(nft_id@) is None && depicts(nft_id@, candidates@, dungeon),
            Err(e) => dungeon_failure(nft_id@) == Some(e),
        },
{
    let fields = match decode_token(nft_id) {
        Ok(fields) => fields,
        Err(e) => {
            return Err(e);
        },
    };
    let structural = dig_fields(&fields, Ghost(nft_id@));
    let wanted = cells_to_scatter(&fields, Ghost(nft_id@));
    let ghost existing = structural@;
    proof {
        lemma_range_unique(centers_of(nft_id@), fields.x_range);
        lemma_range_unique(centers_of(nft_id@), fields.y_range);
    }
    match scatter_cells(structural, fields.x_range, fields.y_range, wanted, candidates) {
        Err(e) => Err(e),
        Ok(excavated) => Ok(
            assemble(fields, excavated, Ghost(nft_id@), Ghost(existing), Ghost(candidates@)),
        ),
    }
}

/// Makes the dungeon of a token, with the scattered cells drawn from `rng`.
///
/// Whether the token gives a dungeon does not depend on what is drawn, and
/// of the dungeon only the scattered cells do.
pub fn parse_nft_id(nft_id: &str, rng: &mut StdRng) -> (result: Result<Dungeon, DecodeError>)
    ensures
        match result {
            Ok(dungeon) => dungeon_failure(nft_id@) is None && exists|candidates: Seq<(i32, i32)>| #[trigger]
                depicts(nft_id@, candidates, dungeon),
            Err(e) => dungeon_failure(nft_id@) == Some(e),
        },
{
    let fields = match decode_token(nft_id) {
        Ok(fields) => fields,
        Err(e) => {
            return Err(e);
        },
    };
    let structural = dig_fields(&fields, Ghost(nft_id@));
    let wanted = cells_to_scatter(&fields, Ghost(nft_id@));
    let ghost existing = structural@;
    proof {
        lemma_range_unique(centers_of(nft_id@), fields.x_range);
        lemma_range_unique(centers_of(nft_id@), fields.y_range);
    }
    match add_random_excavated_points(structural, fields.x_range, fields.y_range, wanted, rng) {
        Err(e) => Err(e),
        Ok(excavated) => {
            let ghost candidates = choose|candidates: Seq<(i32, i32)>| #[trigger]
                scatters_to(
                    existing,
                    fields.x_range,
                    fields.y_range,
                    wanted as nat,
                    candidates,
                    excavated@,
                );
            Ok(assemble(fields, excavated, Ghost(nft_id@), Ghost(existing), Ghost(candidates)))
        },
    }
}

} // verus!
