//! Scattering extra cells in the box around the room centers.
//!
//! The cells come from candidates that a random source hands out: each
//! candidate in turn is taken if it lies in the box and is neither occupied
//! nor taken already, until as many cells are taken as are wanted. Should the
//! candidates run out first, the cells of the box are gone through in order,
//! column by column, as if they were further candidates. So the wanted number
//! is reached whenever the box has that many free cells, and the call ends
//! whatever the random source does.

use rand::rngs::StdRng;
use vstd::prelude::*;
use vstd::set_lib::lemma_len_subset;
use vstd::set_lib::lemma_len_union;
use crate::cells::distinct;
use crate::cells::lemma_distinct;
use crate::cells::lemma_push_contains;
use crate::cells::lemma_push_fresh;
use crate::cells::CellSet;
use crate::error::DecodeError;
use crate::random::random_between;

verus! {

/// Whether `cell` lies in the box that the two ranges span, ends included.
pub open spec fn in_box(cell: (i32, i32), x_range: (i32, i32), y_range: (i32, i32)) -> bool {
    x_range.0 <= cell.0 <= x_range.1 && y_range.0 <= cell.1 <= y_range.1
}

/// The number of coordinates in a range, ends included; none if the range
/// ends before it starts.
pub open spec fn span(range: (i32, i32)) -> nat {
    if range.0 <= range.1 {
        (range.1 - range.0 + 1) as nat
    } else {
        0
    }
}

/// The number of cells of the box.
pub open spec fn box_size(x_range: (i32, i32), y_range: (i32, i32)) -> nat {
    span(x_range) * span(y_range)
}

/// The cells of the box as a set.
pub open spec fn box_set(x_range: (i32, i32), y_range: (i32, i32)) -> Set<(i32, i32)> {
    Set::new(|cell: (i32, i32)| in_box(cell, x_range, y_range))
}

/// The number of cells of the box that are not occupied.
pub open spec fn free_cells(
    occupied: Set<(i32, i32)>,
    x_range: (i32, i32),
    y_range: (i32, i32),
) -> int {
    box_size(x_range, y_range) - occupied.intersect(box_set(x_range, y_range)).len()
}

/// The first `count` cells of the column at `x`, from the lower end of the
/// box upward.
pub open spec fn column(x: i32, y_range: (i32, i32), count: nat) -> Seq<(i32, i32)> {
    Seq::new(count, |j: int| (x, (y_range.0 + j) as i32))
}

/// The cells of the first `columns` columns of the box, column by column.
pub open spec fn box_cells(x_range: (i32, i32), y_range: (i32, i32), columns: nat) -> Seq<
    (i32, i32),
>
    decreases columns,
{
    if columns == 0 {
        Seq::empty()
    } else {
        box_cells(x_range, y_range, (columns - 1) as nat) + column(
            (x_range.0 + columns - 1) as i32,
            y_range,
            span(y_range),
        )
    }
}

/// All cells of the box, column by column.
pub open spec fn all_box_cells(x_range: (i32, i32), y_range: (i32, i32)) -> Seq<(i32, i32)> {
    box_cells(x_range, y_range, span(x_range))
}

/// The cells that are taken from `candidates`: going through the candidates
/// in order, each one that lies in the box and is neither occupied nor taken
/// already, as long as fewer than `wanted` are taken.
pub open spec fn accepted(
    occupied: Set<(i32, i32)>,
    x_range: (i32, i32),
    y_range: (i32, i32),
    wanted: nat,
    candidates: Seq<(i32, i32)>,
) -> Seq<(i32, i32)>
    decreases candidates.len(),
{
    if candidates.len() == 0 {
        Seq::empty()
    } else {
        let before = accepted(occupied, x_range, y_range, wanted, candidates.drop_last());
        let next = candidates.last();
        if before.len() < wanted && in_box(next, x_range, y_range) && !occupied.contains(next)
            && !before.contains(next) {
            before.push(next)
        } else {
            before
        }
    }
}

/// The cells that are scattered: those taken from the candidates and then,
/// if more are wanted, from the cells of the box in order.
pub open spec fn scattered(
    occupied: Set<(i32, i32)>,
    x_range: (i32, i32),
    y_range: (i32, i32),
    wanted: nat,
    candidates: Seq<(i32, i32)>,
) -> Seq<(i32, i32)> {
    accepted(occupied, x_range, y_range, wanted, candidates + all_box_cells(x_range, y_range))
}

/// A column holds the cells at its x from the lower end of the box upward,
/// each once.
pub proof fn lemma_column(x: i32, y_range: (i32, i32), count: nat)
    requires
        count <= span(y_range),
    ensures
        column(x, y_range, count).no_duplicates(),
        forall|cell: (i32, i32)| #[trigger]
            column(x, y_range, count).contains(cell) <==> cell.0 == x && y_range.0 <= cell.1
                < y_range.0 + count,
{
    let cells = column(x, y_range, count);
    assert forall|cell: (i32, i32)| #[trigger]
        cells.contains(cell) <==> cell.0 == x && y_range.0 <= cell.1 < y_range.0 + count by {
        if cells.contains(cell) {
            let j = choose|j: int| 0 <= j < cells.len() && cells[j] == cell;
            assert(cells[j] == cell);
        }
        if cell.0 == x && y_range.0 <= cell.1 < y_range.0 + count {
            assert(cells[cell.1 - y_range.0] == cell);
        }
    }
}

/// The first columns of a box hold as many cells as there are columns times
/// the height of the box.
pub proof fn lemma_box_cells_len(x_range: (i32, i32), y_range: (i32, i32), columns: nat)
    ensures
        box_cells(x_range, y_range, columns).len() == columns * span(y_range),
    decreases columns,
{
    if columns > 0 {
        lemma_box_cells_len(x_range, y_range, (columns - 1) as nat);
        assert(columns * span(y_range) == (columns - 1) * span(y_range) + span(y_range))
            by (nonlinear_arith);
    } else {
        assert(columns * span(y_range) == 0) by (nonlinear_arith)
            requires
                columns == 0,
        ;
    }
}

/// The first columns of a box hold the cells of the box that lie in them,
/// each once.
pub proof fn lemma_box_cells(x_range: (i32, i32), y_range: (i32, i32), columns: nat)
    requires
        columns <= span(x_range),
    ensures
        box_cells(x_range, y_range, columns).no_duplicates(),
        forall|cell: (i32, i32)| #[trigger]
            box_cells(x_range, y_range, columns).contains(cell) <==> in_box(cell, x_range, y_range)
                && cell.0 < x_range.0 + columns,
    decreases columns,
{
    if columns > 0 {
        let fewer = box_cells(x_range, y_range, (columns - 1) as nat);
        let x = (x_range.0 + columns - 1) as i32;
        let last = column(x, y_range, span(y_range));
        lemma_box_cells(x_range, y_range, (columns - 1) as nat);
        lemma_column(x, y_range, span(y_range));
        assert forall|cell: (i32, i32)| #[trigger]
            (fewer + last).contains(cell) <==> in_box(cell, x_range, y_range) && cell.0 < x_range.0
                + columns by {
            vstd::seq_lib::lemma_seq_concat_contains_all_elements(fewer, last, cell);
        }
        assert forall|i: int, j: int| 0 <= i < fewer.len() && 0 <= j < last.len() implies fewer[i]
            != last[j] by {
            assert(fewer.contains(fewer[i]));
            assert(last.contains(last[j]));
        }
        vstd::seq_lib::lemma_no_dup_in_concat(fewer, last);
    }
}

/// The box has as many cells as its width times its height, and the list of
/// all its cells holds each of them once.
pub proof fn lemma_all_box_cells(x_range: (i32, i32), y_range: (i32, i32))
    ensures
        all_box_cells(x_range, y_range).len() == box_size(x_range, y_range),
        all_box_cells(x_range, y_range).no_duplicates(),
        all_box_cells(x_range, y_range).to_set() == box_set(x_range, y_range),
        box_set(x_range, y_range).finite(),
        box_set(x_range, y_range).len() == box_size(x_range, y_range),
{
    let all = all_box_cells(x_range, y_range);
    lemma_box_cells(x_range, y_range, span(x_range));
    lemma_box_cells_len(x_range, y_range, span(x_range));
    assert(all.to_set() =~= box_set(x_range, y_range));
    all.unique_seq_to_set();
    vstd::seq_lib::seq_to_set_is_finite(all);
}

/// What is taken from candidates: no cell twice, no occupied cell, only
/// cells of the box that are among the candidates, and no more than wanted.
pub proof fn lemma_accepted(
    occupied: Set<(i32, i32)>,
    x_range: (i32, i32),
    y_range: (i32, i32),
    wanted: nat,
    candidates: Seq<(i32, i32)>,
)
    ensures
        accepted(occupied, x_range, y_range, wanted, candidates).no_duplicates(),
        accepted(occupied, x_range, y_range, wanted, candidates).len() <= wanted,
        forall|cell: (i32, i32)| #[trigger]
            accepted(occupied, x_range, y_range, wanted, candidates).contains(cell) ==> in_box(
                cell,
                x_range,
                y_range,
            ) && !occupied.contains(cell) && candidates.contains(cell),
    decreases candidates.len(),
{
    if candidates.len() > 0 {
        let before = accepted(occupied, x_range, y_range, wanted, candidates.drop_last());
        let next = candidates.last();
        lemma_accepted(occupied, x_range, y_range, wanted, candidates.drop_last());
        lemma_push_contains(before, next);
        lemma_push_contains(candidates.drop_last(), next);
        assert(candidates.drop_last().push(next) == candidates);
        if !before.contains(next) {
            lemma_push_fresh(before, next);
        }
    }
}

/// Once as many cells are taken as are wanted, further candidates change
/// nothing.
pub proof fn lemma_accepted_full(
    occupied: Set<(i32, i32)>,
    x_range: (i32, i32),
    y_range: (i32, i32),
    wanted: nat,
    candidates: Seq<(i32, i32)>,
    more: Seq<(i32, i32)>,
)
    requires
        accepted(occupied, x_range, y_range, wanted, candidates).len() >= wanted,
    ensures
        accepted(occupied, x_range, y_range, wanted, candidates + more) == accepted(
            occupied,
            x_range,
            y_range,
            wanted,
            candidates,
        ),
    decreases more.len(),
{
    if more.len() == 0 {
        assert(candidates + more == candidates);
    } else {
        lemma_accepted_full(occupied, x_range, y_range, wanted, candidates, more.drop_last());
        assert((candidates + more).drop_last() == candidates + more.drop_last());
    }
}

/// While fewer cells are taken than are wanted, every candidate in the box is
/// occupied or taken.
pub proof fn lemma_rejected(
    occupied: Set<(i32, i32)>,
    x_range: (i32, i32),
    y_range: (i32, i32),
    wanted: nat,
    candidates: Seq<(i32, i32)>,
)
    requires
        accepted(occupied, x_range, y_range, wanted, candidates).len() < wanted,
    ensures
        forall|cell: (i32, i32)|
            candidates.contains(cell) && in_box(cell, x_range, y_range) ==> occupied.contains(cell)
                || #[trigger] accepted(occupied, x_range, y_range, wanted, candidates).contains(
                cell,
            ),
    decreases candidates.len(),
{
    let taken = accepted(occupied, x_range, y_range, wanted, candidates);
    if candidates.len() > 0 {
        let before = accepted(occupied, x_range, y_range, wanted, candidates.drop_last());
        let next = candidates.last();
        lemma_rejected(occupied, x_range, y_range, wanted, candidates.drop_last());
        lemma_push_contains(before, next);
        lemma_push_contains(candidates.drop_last(), next);
        assert(candidates.drop_last().push(next) == candidates);
        assert forall|cell: (i32, i32)|
            candidates.contains(cell) && in_box(cell, x_range, y_range) implies occupied.contains(
            cell,
        ) || #[trigger] taken.contains(cell) by {
            if cell != next {
                assert(candidates.drop_last().contains(cell));
                assert(occupied.contains(cell) || before.contains(cell));
            }
        }
    }
}

/// Where the box has as many free cells as are wanted, that many cells are
/// scattered.
pub proof fn lemma_scattered_count(
    occupied: Set<(i32, i32)>,
    x_range: (i32, i32),
    y_range: (i32, i32),
    wanted: nat,
    candidates: Seq<(i32, i32)>,
)
    requires
        occupied.finite(),
        free_cells(occupied, x_range, y_range) >= wanted,
    ensures
        scattered(occupied, x_range, y_range, wanted, candidates).len() == wanted,
{
    let all = all_box_cells(x_range, y_range);
    let taken = scattered(occupied, x_range, y_range, wanted, candidates);
    let the_box = box_set(x_range, y_range);
    let inside = occupied.intersect(the_box);
    lemma_accepted(occupied, x_range, y_range, wanted, candidates + all);
    if taken.len() < wanted {
        lemma_rejected(occupied, x_range, y_range, wanted, candidates + all);
        lemma_all_box_cells(x_range, y_range);
        assert forall|cell: (i32, i32)| the_box.contains(cell) implies inside.union(
            taken.to_set(),
        ).contains(cell) by {
            assert(all.to_set().contains(cell));
            assert(all.contains(cell));
            let i = choose|i: int| 0 <= i < all.len() && all[i] == cell;
            assert((candidates + all)[candidates.len() + i] == cell);
            assert((candidates + all).contains(cell));
            assert(occupied.contains(cell) || taken.contains(cell));
        }
        assert(the_box.subset_of(inside.union(taken.to_set())));
        lemma_len_subset(inside, occupied);
        vstd::seq_lib::seq_to_set_is_finite(taken);
        lemma_len_union(inside, taken.to_set());
        lemma_len_subset(the_box, inside.union(taken.to_set()));
        taken.lemma_cardinality_of_set();
    }
}

/// No more cells are scattered than the box has free cells.
pub proof fn lemma_scattered_bound(
    occupied: Set<(i32, i32)>,
    x_range: (i32, i32),
    y_range: (i32, i32),
    wanted: nat,
    candidates: Seq<(i32, i32)>,
)
    requires
        occupied.finite(),
    ensures
        scattered(occupied, x_range, y_range, wanted, candidates).len() <= free_cells(
            occupied,
            x_range,
            y_range,
        ),
{
    let all = all_box_cells(x_range, y_range);
    let taken = scattered(occupied, x_range, y_range, wanted, candidates);
    let the_box = box_set(x_range, y_range);
    let inside = occupied.intersect(the_box);
    lemma_accepted(occupied, x_range, y_range, wanted, candidates + all);
    lemma_all_box_cells(x_range, y_range);
    lemma_len_subset(inside, occupied);
    taken.unique_seq_to_set();
    vstd::seq_lib::seq_to_set_is_finite(taken);
    assert forall|cell: (i32, i32)| taken.to_set().contains(cell) implies the_box.difference(
        inside,
    ).contains(cell) by {
        assert(taken.contains(cell));
    }
    assert(taken.to_set().subset_of(the_box.difference(inside)));
    vstd::set_lib::lemma_set_difference_len(the_box, inside);
    assert(the_box.intersect(inside) =~= inside);
    lemma_len_subset(taken.to_set(), the_box.difference(inside));
}

/// The cells scanned so far, while the box is gone through column by column,
/// are the first cells of the list of all its cells.
proof fn lemma_scanned_is_prefix(x_range: (i32, i32), y_range: (i32, i32), columns: nat, rows: nat)
    requires
        columns < span(x_range),
        rows <= span(y_range),
    ensures
        box_cells(x_range, y_range, columns) + column(
            (x_range.0 + columns) as i32,
            y_range,
            rows,
        ) == all_box_cells(x_range, y_range).take((columns * span(y_range) + rows) as int),
        columns * span(y_range) + rows <= all_box_cells(x_range, y_range).len(),
{
    let x = (x_range.0 + columns) as i32;
    let fewer = box_cells(x_range, y_range, columns);
    let next = box_cells(x_range, y_range, columns + 1);
    let all = all_box_cells(x_range, y_range);
    lemma_box_cells_len(x_range, y_range, columns);
    lemma_box_cells_len(x_range, y_range, columns + 1);
    lemma_box_cells_len(x_range, y_range, span(x_range));
    lemma_box_cells_prefix(x_range, y_range, columns + 1, span(x_range));
    assert(next == fewer + column(x, y_range, span(y_range)));
    assert(columns * span(y_range) + span(y_range) == (columns + 1) * span(y_range))
        by (nonlinear_arith);
    assert(fewer + column(x, y_range, rows) =~= next.take((columns * span(y_range) + rows) as int));
    assert(next.take((columns * span(y_range) + rows) as int) =~= all.take((columns * span(y_range) + rows) as int));
}

/// The cells of fewer columns are the first cells of those of more columns.
proof fn lemma_box_cells_prefix(x_range: (i32, i32), y_range: (i32, i32), fewer: nat, more: nat)
    requires
        fewer <= more,
    ensures
        box_cells(x_range, y_range, fewer).len() <= box_cells(x_range, y_range, more).len(),
        box_cells(x_range, y_range, fewer) == box_cells(x_range, y_range, more).take(
            box_cells(x_range, y_range, fewer).len() as int,
        ),
    decreases more,
{
    let short = box_cells(x_range, y_range, fewer);
    let long = box_cells(x_range, y_range, more);
    if fewer == more {
        assert(short =~= long.take(short.len() as int));
    } else {
        let middle = box_cells(x_range, y_range, (more - 1) as nat);
        lemma_box_cells_prefix(x_range, y_range, fewer, (more - 1) as nat);
        assert(short =~= long.take(short.len() as int));
    }
}

/// Draws `count` cells of the box at random.
pub fn draw_candidates(
    rng: &mut StdRng,
    x_range: (i32, i32),
    y_range: (i32, i32),
    count: usize,
) -> (candidates: Vec<(i32, i32)>)
    requires
        x_range.0 <= x_range.1,
        y_range.0 <= y_range.1,
    ensures
        candidates@.len() == count,
        forall|i: int| 0 <= i < count ==> in_box(#[trigger] candidates@[i], x_range, y_range),
{
    let mut candidates: Vec<(i32, i32)> = Vec::new();
    let mut i: usize = 0;
    while i < count
        invariant
            x_range.0 <= x_range.1,
            y_range.0 <= y_range.1,
            i <= count,
            candidates@.len() == i,
            forall|j: int| 0 <= j < i ==> in_box(#[trigger] candidates@[j], x_range, y_range),
        decreases count - i,
    {
        let x = random_between(rng, x_range.0, x_range.1);
        let y = random_between(rng, y_range.0, y_range.1);
        candidates.push((x, y));
        i = i + 1;
    }
    candidates
}

/// Tests whether a cell lies in the box.
fn lies_in_box(cell: (i32, i32), x_range: (i32, i32), y_range: (i32, i32)) -> (yes: bool)
    ensures
        yes == in_box(cell, x_range, y_range),
{
    x_range.0 <= cell.0 && cell.0 <= x_range.1 && y_range.0 <= cell.1 && cell.1 <= y_range.1
}

/// Counts the coordinates of a range.
fn span_of(range: (i32, i32)) -> (count: u64)
    ensures
        count == span(range),
        count <= 0x1_0000_0000,
{
    if range.0 <= range.1 {
        (range.1 as i64 - range.0 as i64 + 1) as u64
    } else {
        0
    }
}

/// Gathers the cells of a list into a set and counts those that lie in the
/// box.
fn collect_cells(existing: &Vec<(i32, i32)>, x_range: (i32, i32), y_range: (i32, i32)) -> (result: (
    CellSet,
    usize,
))
    ensures
        result.0.wf(),
        result.0@ == distinct(existing@),
        result.1 == existing@.to_set().intersect(box_set(x_range, y_range)).len(),
{
    let ghost the_box = box_set(x_range, y_range);
    let mut set = CellSet::new();
    let mut inside: usize = 0;
    let mut i: usize = 0;
    assert(existing@.take(0).to_set().intersect(the_box) =~= Set::<(i32, i32)>::empty());
    while i < existing.len()
        invariant
            the_box == box_set(x_range, y_range),
            i <= existing@.len(),
            set.wf(),
            set@ == distinct(existing@.take(i as int)),
            inside == existing@.take(i as int).to_set().intersect(the_box).len(),
            inside <= i,
        decreases existing@.len() - i,
    {
        let cell = existing[i];
        let ghost prefix = existing@.take(i as int);
        let ghost longer = existing@.take(i as int + 1);
        proof {
            assert(longer.drop_last() == prefix);
            assert(longer.last() == cell);
            assert(longer == prefix.push(cell));
            lemma_distinct(prefix);
            prefix.lemma_push_to_set_commute(cell);
            vstd::seq_lib::seq_to_set_is_finite(prefix);
            lemma_len_subset(prefix.to_set().intersect(the_box), prefix.to_set());
        }
        let added = set.insert(cell);
        if added && lies_in_box(cell, x_range, y_range) {
            proof {
                assert(!prefix.to_set().contains(cell));
                assert(longer.to_set().intersect(the_box) =~= prefix.to_set().intersect(
                    the_box,
                ).insert(cell));
            }
            inside = inside + 1;
        } else {
            proof {
                if added {
                    assert(longer.to_set().intersect(the_box) =~= prefix.to_set().intersect(
                        the_box,
                    ));
                } else {
                    assert(prefix.to_set().contains(cell));
                    assert(longer.to_set() =~= prefix.to_set());
                }
            }
        }
        i = i + 1;
    }
    proof {
        assert(existing@.take(existing@.len() as int) == existing@);
    }
    (set, inside)
}

/// Tests whether the box has fewer free cells than are wanted.
fn lacks_room(inside: usize, x_range: (i32, i32), y_range: (i32, i32), wanted: usize) -> (yes: bool)
    requires
        inside <= box_size(x_range, y_range),
    ensures
        yes == (box_size(x_range, y_range) - inside < wanted),
{
    let width = span_of(x_range);
    let height = span_of(y_range);
    assert(width * height <= 0x1_0000_0000_0000_0000) by (nonlinear_arith)
        requires
            width <= 0x1_0000_0000,
            height <= 0x1_0000_0000,
    ;
    let cells: u128 = (width as u128) * (height as u128);
    cells - (inside as u128) < wanted as u128
}

/// Adds the scattered cells to a set whose box has room for them.
fn scatter_into(
    set: CellSet,
    x_range: (i32, i32),
    y_range: (i32, i32),
    wanted: usize,
    candidates: &Vec<(i32, i32)>,
) -> (cells: Vec<(i32, i32)>)
    requires
        set.wf(),
        free_cells(set@.to_set(), x_range, y_range) >= wanted,
    ensures
        cells@ == set@ + scattered(set@.to_set(), x_range, y_range, wanted as nat, candidates@),
        cells@.no_duplicates(),
        cells@.len() == set@.len() + wanted,
{
    let ghost base = set@;
    let ghost occupied = set@.to_set();
    let ghost all = all_box_cells(x_range, y_range);
    let mut set = set;
    let mut taken: usize = 0;
    proof {
        vstd::seq_lib::seq_to_set_is_finite(base);
        lemma_scattered_count(occupied, x_range, y_range, wanted as nat, candidates@);
        assert(base + Seq::<(i32, i32)>::empty() =~= base);
        assert(candidates@.take(0) =~= Seq::<(i32, i32)>::empty());
    }
    let mut i: usize = 0;
    while i < candidates.len() && taken < wanted
        invariant
            base.to_set() == occupied,
            i <= candidates@.len(),
            set.wf(),
            set@ == base + accepted(
                occupied,
                x_range,
                y_range,
                wanted as nat,
                candidates@.take(i as int),
            ),
            taken == accepted(occupied, x_range, y_range, wanted as nat, candidates@.take(i as int)).len(),
            taken <= wanted,
        decreases candidates@.len() - i,
    {
        let cell = candidates[i];
        let ghost before = accepted(
            occupied,
            x_range,
            y_range,
            wanted as nat,
            candidates@.take(i as int),
        );
        proof {
            assert(candidates@.take(i as int + 1).drop_last() == candidates@.take(i as int));
            assert(candidates@.take(i as int + 1).last() == cell);
            vstd::seq_lib::lemma_seq_concat_contains_all_elements(base, before, cell);
        }
        if lies_in_box(cell, x_range, y_range) {
            let added = set.insert(cell);
            if added {
                assert(set@ =~= base + before.push(cell));
                taken = taken + 1;
            }
        }
        i = i + 1;
    }
    let ghost drawn = candidates@.take(i as int);
    if taken == wanted {
        proof {
            lemma_accepted_full(
                occupied,
                x_range,
                y_range,
                wanted as nat,
                drawn,
                candidates@.skip(i as int) + all,
            );
            assert(drawn + (candidates@.skip(i as int) + all) =~= candidates@ + all);
        }
        let cells = set.into_cells();
        return cells;
    }
    assert(drawn == candidates@);
    let x_end: i64 = x_range.1 as i64;
    let y_end: i64 = y_range.1 as i64;
    let mut x: i64 = x_range.0 as i64;
    let ghost mut scanned: Seq<(i32, i32)> = Seq::empty();
    proof {
        assert(candidates@ + scanned =~= candidates@);
        assert(box_cells(x_range, y_range, 0) =~= scanned);
        assert(all.take(0) =~= scanned);
    }
    while x <= x_end && taken < wanted
        invariant
            base.to_set() == occupied,
            x_end == x_range.1,
            y_end == y_range.1,
            x_range.0 <= x,
            x <= x_end + 1 || x == x_range.0,
            set.wf(),
            x <= x_end && taken < wanted ==> scanned == box_cells(
                x_range,
                y_range,
                (x - x_range.0) as nat,
            ),
            x <= x_end || scanned == all_box_cells(x_range, y_range) || taken == wanted,
            all == all_box_cells(x_range, y_range),
            scanned.len() <= all.len(),
            scanned == all.take(scanned.len() as int),
            set@ == base + accepted(occupied, x_range, y_range, wanted as nat, candidates@ + scanned),
            taken == accepted(occupied, x_range, y_range, wanted as nat, candidates@ + scanned).len(),
            taken <= wanted,
        decreases x_end + 1 - x, wanted - taken,
    {
        let ghost columns = (x - x_range.0) as nat;
        let ghost start = scanned;
        let mut y: i64 = y_range.0 as i64;
        proof {
            assert(start + column(x as i32, y_range, 0) =~= start);
        }
        while y <= y_end && taken < wanted
            invariant
                base.to_set() == occupied,
                x_end == x_range.1,
                y_end == y_range.1,
                x_range.0 <= x <= x_end,
                y_range.0 <= y,
                y <= y_end + 1 || y == y_range.0,
                columns == x - x_range.0,
                start == box_cells(x_range, y_range, columns),
                set.wf(),
                scanned == start + column(x as i32, y_range, (y - y_range.0) as nat),
                set@ == base + accepted(
                    occupied,
                    x_range,
                    y_range,
                    wanted as nat,
                    candidates@ + scanned,
                ),
                taken == accepted(
                    occupied,
                    x_range,
                    y_range,
                    wanted as nat,
                    candidates@ + scanned,
                ).len(),
                taken <= wanted,
            decreases y_end + 1 - y,
        {
            let cell: (i32, i32) = (x as i32, y as i32);
            let ghost before = accepted(
                occupied,
                x_range,
                y_range,
                wanted as nat,
                candidates@ + scanned,
            );
            let ghost longer = scanned.push(cell);
            proof {
                assert(longer =~= start + column(x as i32, y_range, (y - y_range.0 + 1) as nat));
                assert((candidates@ + longer).drop_last() =~= candidates@ + scanned);
                assert((candidates@ + longer).last() == cell);
                vstd::seq_lib::lemma_seq_concat_contains_all_elements(base, before, cell);
            }
            let added = set.insert(cell);
            if added {
                assert(set@ =~= base + before.push(cell));
                taken = taken + 1;
            }
            proof {
                scanned = longer;
            }
            y = y + 1;
        }
        proof {
            lemma_scanned_is_prefix(x_range, y_range, columns, (y - y_range.0) as nat);
            if y > y_end {
                assert(scanned == box_cells(x_range, y_range, columns + 1));
            }
        }
        if y > y_end {
            x = x + 1;
        }
    }
    proof {
        let rest = all.skip(scanned.len() as int);
        assert(scanned + rest =~= all);
        if taken == wanted {
            lemma_accepted_full(occupied, x_range, y_range, wanted as nat, candidates@ + scanned, rest);
            assert((candidates@ + scanned) + rest =~= candidates@ + all);
        } else {
            if x_range.0 > x_range.1 {
                assert(scanned =~= all);
            }
        }
    }
    set.into_cells()
}

/// Adds scattered cells to a list of cells, given the candidates to take
/// them from.
///
/// The result lists each cell of `existing_points` once, in the order of its
/// first occurrence, and then `num_points` cells of the box that are not among
/// them: the first candidates that qualify and, if those are too few, the
/// first free cells of the box, column by column. A box with fewer free
/// cells than `num_points` is refused.
pub fn scatter_cells(
    existing_points: Vec<(i32, i32)>,
    x_range: (i32, i32),
    y_range: (i32, i32),
    num_points: usize,
    candidates: &Vec<(i32, i32)>,
) -> (result: Result<Vec<(i32, i32)>, DecodeError>)
    ensures
        match result {
            Ok(cells) => {
                &&& free_cells(existing_points@.to_set(), x_range, y_range) >= num_points
                &&& cells@ == distinct(existing_points@) + scattered(
                    existing_points@.to_set(),
                    x_range,
                    y_range,
                    num_points as nat,
                    candidates@,
                )
            },
            Err(e) => {
                &&& e == DecodeError::ScatterCapacityExceeded
                &&& free_cells(existing_points@.to_set(), x_range, y_range) < num_points
            },
        },
{
    let (set, inside) = collect_cells(&existing_points, x_range, y_range);
    proof {
        lemma_occupied(existing_points@, x_range, y_range);
    }
    if lacks_room(inside, x_range, y_range, num_points) {
        return Err(DecodeError::ScatterCapacityExceeded);
    }
    Ok(scatter_into(set, x_range, y_range, num_points, candidates))
}

/// `cells` is `existing` with `wanted` cells scattered from `candidates`:
/// each cell of `existing` once, in the order of its first occurrence, and
/// then the scattered cells.
pub open spec fn scatters_to(
    existing: Seq<(i32, i32)>,
    x_range: (i32, i32),
    y_range: (i32, i32),
    wanted: nat,
    candidates: Seq<(i32, i32)>,
    cells: Seq<(i32, i32)>,
) -> bool {
    cells == distinct(existing) + scattered(existing.to_set(), x_range, y_range, wanted, candidates)
}

/// Scattering adds exactly the wanted number of cells, all of them new and
/// in the box, to the cells there were; no cell is listed twice.
pub proof fn lemma_scatters_to(
    existing: Seq<(i32, i32)>,
    x_range: (i32, i32),
    y_range: (i32, i32),
    wanted: nat,
    candidates: Seq<(i32, i32)>,
    cells: Seq<(i32, i32)>,
)
    requires
        free_cells(existing.to_set(), x_range, y_range) >= wanted,
        scatters_to(existing, x_range, y_range, wanted, candidates, cells),
    ensures
        cells.no_duplicates(),
        cells.len() == distinct(existing).len() + wanted,
        cells.len() == existing.to_set().len() + wanted,
        forall|cell: (i32, i32)| existing.contains(cell) ==> #[trigger] cells.contains(cell),
        forall|cell: (i32, i32)| #[trigger]
            cells.contains(cell) ==> existing.contains(cell) || in_box(cell, x_range, y_range),
        forall|i: int|
            distinct(existing).len() <= i < cells.len() ==> in_box(
                #[trigger] cells[i],
                x_range,
                y_range,
            ) && !existing.contains(cells[i]),
{
    let kept = distinct(existing);
    let added = scattered(existing.to_set(), x_range, y_range, wanted, candidates);
    lemma_distinct(existing);
    lemma_occupied(existing, x_range, y_range);
    lemma_scattered_count(existing.to_set(), x_range, y_range, wanted, candidates);
    lemma_accepted(
        existing.to_set(),
        x_range,
        y_range,
        wanted,
        candidates + all_box_cells(x_range, y_range),
    );
    kept.unique_seq_to_set();
    assert forall|i: int, j: int| 0 <= i < kept.len() && 0 <= j < added.len() implies kept[i]
        != added[j] by {
        assert(kept.contains(kept[i]));
        assert(added.contains(added[j]));
    }
    vstd::seq_lib::lemma_no_dup_in_concat(kept, added);
    assert forall|cell: (i32, i32)| #[trigger]
        cells.contains(cell) <==> kept.contains(cell) || added.contains(cell) by {
        vstd::seq_lib::lemma_seq_concat_contains_all_elements(kept, added, cell);
    }
    assert forall|i: int| kept.len() <= i < cells.len() implies in_box(
        #[trigger] cells[i],
        x_range,
        y_range,
    ) && !existing.contains(cells[i]) by {
        assert(added.contains(added[i - kept.len()]));
    }
}

/// The number of candidates that are drawn for a wanted number of cells:
/// four for each, and at most some millions.
pub open spec fn draws_for(wanted: nat) -> nat {
    if wanted <= 0x10_0000 {
        4 * wanted
    } else {
        0x40_0000
    }
}

/// Adds cells drawn at random from the box to a list of cells.
///
/// The result lists each cell of `existing_points` once and then
/// `num_points` cells of the box that are not among them. A box with fewer
/// free cells than `num_points` is refused, before anything is drawn. The
/// cells are taken from [`draws_for`]`(num_points)` random candidates as
/// [`scatter_cells`] takes them.
pub fn add_random_excavated_points(
    existing_points: Vec<(i32, i32)>,
    x_range: (i32, i32),
    y_range: (i32, i32),
    num_points: usize,
    rng: &mut StdRng,
) -> (result: Result<Vec<(i32, i32)>, DecodeError>)
    ensures
        match result {
            Ok(cells) => {
                &&& free_cells(existing_points@.to_set(), x_range, y_range) >= num_points
                &&& exists|candidates: Seq<(i32, i32)>| #[trigger]
                    scatters_to(
                        existing_points@,
                        x_range,
                        y_range,
                        num_points as nat,
                        candidates,
                        cells@,
                    )
                &&& cells@.no_duplicates()
                &&& cells@.len() == distinct(existing_points@).len() + num_points
                &&& forall|cell: (i32, i32)|
                    existing_points@.contains(cell) ==> #[trigger] cells@.contains(cell)
                &&& forall|cell: (i32, i32)| #[trigger]
                    cells@.contains(cell) ==> existing_points@.contains(cell) || in_box(
                        cell,
                        x_range,
                        y_range,
                    )
            },
            Err(e) => {
                &&& e == DecodeError::ScatterCapacityExceeded
                &&& free_cells(existing_points@.to_set(), x_range, y_range) < num_points
            },
        },
{
    let (set, inside) = collect_cells(&existing_points, x_range, y_range);
    proof {
        lemma_occupied(existing_points@, x_range, y_range);
    }
    if lacks_room(inside, x_range, y_range, num_points) {
        return Err(DecodeError::ScatterCapacityExceeded);
    }
    let candidates = draw_for(rng, x_range, y_range, num_points);
    let cells = scatter_into(set, x_range, y_range, num_points, &candidates);
    proof {
        assert(scatters_to(
            existing_points@,
            x_range,
            y_range,
            num_points as nat,
            candidates@,
            cells@,
        ));
        lemma_scatters_to(
            existing_points@,
            x_range,
            y_range,
            num_points as nat,
            candidates@,
            cells@,
        );
    }
    Ok(cells)
}

/// Draws the candidates for a wanted number of cells: none where none is
/// wanted or the box is empty.
pub fn draw_for(rng: &mut StdRng, x_range: (i32, i32), y_range: (i32, i32), wanted: usize) -> (candidates:
    Vec<(i32, i32)>)
    ensures
        forall|i: int|
            0 <= i < candidates@.len() ==> in_box(#[trigger] candidates@[i], x_range, y_range),
        candidates@.len() == if x_range.0 <= x_range.1 && y_range.0 <= y_range.1 {
            draws_for(wanted as nat)
        } else {
            0
        },
{
    if x_range.0 <= x_range.1 && y_range.0 <= y_range.1 {
        let count: usize = if wanted <= 0x10_0000 {
            4 * wanted
        } else {
            0x40_0000
        };
        draw_candidates(rng, x_range, y_range, count)
    } else {
        Vec::new()
    }
}

/// The cells of a list and the cells that it lists once are the same set,
/// and no more of them lie in a box than the box has cells.
proof fn lemma_occupied(existing: Seq<(i32, i32)>, x_range: (i32, i32), y_range: (i32, i32))
    ensures
        distinct(existing).to_set() == existing.to_set(),
        existing.to_set().finite(),
        existing.to_set().intersect(box_set(x_range, y_range)).len() <= box_size(x_range, y_range),
{
    lemma_distinct(existing);
    assert(distinct(existing).to_set() =~= existing.to_set());
    vstd::seq_lib::seq_to_set_is_finite(existing);
    lemma_all_box_cells(x_range, y_range);
    lemma_len_subset(
        existing.to_set().intersect(box_set(x_range, y_range)),
        box_set(x_range, y_range),
    );
}

} // verus!
