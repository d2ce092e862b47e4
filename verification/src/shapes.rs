//! Room shapes: a pattern of offsets for each symbol, grown by the room size.
//!
//! Each of the 36 symbols (digits and letters, whatever their case) names a
//! short pattern of offsets around the room center. A room of size `n > 0`
//! covers, around every offset of its pattern, the square of the cells at
//! most `n - 1` away in each direction; a room of size 0 covers nothing.

use vstd::prelude::*;
use crate::symbols::fold_case;
use crate::symbols::to_lowercase;
use crate::cells::lemma_push_fresh;

verus! {

/// The largest room size that [`get_room_offsets`] accepts: with it the cells
/// of a room still have `i32` coordinates.
pub const MAX_ROOM_SIZE: u32 = 0x7fff_fffc;

/// The pattern of offsets that a shape symbol names; empty for a character
/// that is no shape symbol.
pub open spec fn base_pattern(symbol: char) -> Seq<(i32, i32)> {
    let c = fold_case(symbol);
    if c == '0' {
        seq![(0i32, 0i32)]
    } else if c == '1' {
        seq![(0i32, 1i32), (0i32, -1i32)]
    } else if c == '2' {
        seq![(1i32, 0i32), (-1i32, 0i32)]
    } else if c == '3' {
        seq![(1i32, 1i32), (-1i32, -1i32)]
    } else if c == '4' {
        seq![(-1i32, 0i32), (1i32, 0i32), (0i32, 1i32)]
    } else if c == '5' {
        seq![(0i32, -1i32), (1i32, 0i32), (-1i32, 1i32)]
    } else if c == '6' {
        seq![(-1i32, -1i32), (1i32, 1i32), (1i32, -1i32), (-1i32, 1i32)]
    } else if c == '7' {
        seq![(0i32, 1i32), (1i32, 0i32), (0i32, -1i32), (-1i32, 0i32)]
    } else if c == '8' {
        seq![(-2i32, 0i32), (2i32, 0i32), (0i32, -2i32), (0i32, 2i32)]
    } else if c == '9' {
        seq![(-3i32, 0i32), (3i32, 0i32), (0i32, -3i32), (0i32, 3i32)]
    } else if c == 'a' {
        seq![(0i32, 1i32), (-1i32, 0i32), (1i32, 0i32), (0i32, -1i32)]
    } else if c == 'b' {
        seq![(-1i32, 1i32), (1i32, -1i32)]
    } else if c == 'c' {
        seq![(-1i32, 1i32), (1i32, 1i32), (1i32, -1i32), (-1i32, -1i32)]
    } else if c == 'd' {
        seq![(-2i32, 2i32), (2i32, 2i32), (-2i32, -2i32), (2i32, -2i32)]
    } else if c == 'e' {
        seq![(-2i32, 0i32), (2i32, 0i32), (0i32, -2i32), (0i32, 2i32)]
    } else if c == 'f' {
        seq![(1i32, 1i32), (2i32, 2i32)]
    } else if c == 'g' {
        seq![(-1i32, 0i32), (-2i32, 0i32), (-3i32, 0i32)]
    } else if c == 'h' {
        seq![(0i32, 1i32), (0i32, 2i32), (0i32, 3i32)]
    } else if c == 'i' {
        seq![(0i32, 0i32)]
    } else if c == 'j' {
        seq![(-1i32, 1i32), (0i32, 1i32), (1i32, 0i32)]
    } else if c == 'k' {
        seq![(0i32, 2i32), (-1i32, 1i32), (1i32, -1i32)]
    } else if c == 'l' {
        seq![(-2i32, 0i32), (1i32, -1i32), (2i32, -2i32)]
    } else if c == 'm' {
        seq![(-1i32, -1i32), (0i32, 1i32), (1i32, 0i32), (-1i32, 1i32)]
    } else if c == 'n' {
        seq![(-1i32, 1i32), (1i32, -1i32), (0i32, 0i32)]
    } else if c == 'o' {
        seq![(-2i32, 2i32), (2i32, -2i32), (0i32, 0i32)]
    } else if c == 'p' {
        seq![(-1i32, 1i32), (1i32, 1i32), (1i32, -1i32)]
    } else if c == 'q' {
        seq![(-1i32, 1i32), (-1i32, -1i32)]
    } else if c == 'r' {
        seq![(-2i32, 2i32), (0i32, 2i32), (2i32, 2i32)]
    } else if c == 's' {
        seq![(-2i32, -2i32), (0i32, -2i32), (2i32, -2i32)]
    } else if c == 't' {
        seq![(-1i32, 0i32), (0i32, 0i32), (1i32, 0i32)]
    } else if c == 'u' {
        seq![(-1i32, -1i32), (1i32, -1i32)]
    } else if c == 'v' {
        seq![(0i32, 2i32), (-1i32, 1i32), (1i32, 1i32)]
    } else if c == 'w' {
        seq![(-1i32, 1i32), (0i32, 0i32), (1i32, -1i32)]
    } else if c == 'x' {
        seq![(-2i32, 2i32), (2i32, -2i32), (-2i32, -2i32), (2i32, 2i32)]
    } else if c == 'y' {
        seq![(0i32, 2i32), (-1i32, 1i32), (1i32, -1i32)]
    } else if c == 'z' {
        seq![(-1i32, 0i32), (0i32, 1i32), (1i32, 0i32)]
    } else {
        Seq::empty()
    }
}

/// Looks up the pattern of a shape symbol.
pub fn base_offsets(symbol: char) -> (pattern: Vec<(i32, i32)>)
    ensures
        pattern@ == base_pattern(symbol),
{
    let c = to_lowercase(symbol);
    let pattern = match c {
        // Single point
        '0' => vec![(0, 0)],
        // Vertical line
        '1' => vec![(0, 1), (0, -1)],
        // Horizontal line
        '2' => vec![(1, 0), (-1, 0)],
        // Diagonal line
        '3' => vec![(1, 1), (-1, -1)],
        // L-shape
        '4' => vec![(-1, 0), (1, 0), (0, 1)],
        // Reverse L-shape
        '5' => vec![(0, -1), (1, 0), (-1, 1)],
        // Diagonal cross
        '6' => vec![(-1, -1), (1, 1), (1, -1), (-1, 1)],
        // Full cross
        '7' => vec![(0, 1), (1, 0), (0, -1), (-1, 0)],
        // Large cross
        '8' => vec![(-2, 0), (2, 0), (0, -2), (0, 2)],
        // Very large cross
        '9' => vec![(-3, 0), (3, 0), (0, -3), (0, 3)],
        // Cross
        'a' => vec![(0, 1), (-1, 0), (1, 0), (0, -1)],
        // Diagonal corners
        'b' => vec![(-1, 1), (1, -1)],
        // Full diamond
        'c' => vec![(-1, 1), (1, 1), (1, -1), (-1, -1)],
        // Large diamond
        'd' => vec![(-2, 2), (2, 2), (-2, -2), (2, -2)],
        // Expanded cross
        'e' => vec![(-2, 0), (2, 0), (0, -2), (0, 2)],
        // Expanding diagonal
        'f' => vec![(1, 1), (2, 2)],
        // Horizontal line left
        'g' => vec![(-1, 0), (-2, 0), (-3, 0)],
        // Vertical line up
        'h' => vec![(0, 1), (0, 2), (0, 3)],
        // Single point
        'i' => vec![(0, 0)],
        // Corner
        'j' => vec![(-1, 1), (0, 1), (1, 0)],
        // Triangle
        'k' => vec![(0, 2), (-1, 1), (1, -1)],
        // Reverse diagonal
        'l' => vec![(-2, 0), (1, -1), (2, -2)],
        // M-shape
        'm' => vec![(-1, -1), (0, 1), (1, 0), (-1, 1)],
        // Zigzag
        'n' => vec![(-1, 1), (1, -1), (0, 0)],
        // Circle-like
        'o' => vec![(-2, 2), (2, -2), (0, 0)],
        // Partial diamond
        'p' => vec![(-1, 1), (1, 1), (1, -1)],
        // Partial diamond reversed
        'q' => vec![(-1, 1), (-1, -1)],
        // Semi-circle
        'r' => vec![(-2, 2), (0, 2), (2, 2)],
        // Semi-circle reversed
        's' => vec![(-2, -2), (0, -2), (2, -2)],
        // T-shape
        't' => vec![(-1, 0), (0, 0), (1, 0)],
        // U-shape
        'u' => vec![(-1, -1), (1, -1)],
        // V-shape
        'v' => vec![(0, 2), (-1, 1), (1, 1)],
        // W-shape
        'w' => vec![(-1, 1), (0, 0), (1, -1)],
        // X-shape
        'x' => vec![(-2, 2), (2, -2), (-2, -2), (2, 2)],
        // Y-shape
        'y' => vec![(0, 2), (-1, 1), (1, -1)],
        // Z-shape
        'z' => vec![(-1, 0), (0, 1), (1, 0)],
        _ => vec![],
    };
    assert(pattern@ =~= base_pattern(symbol));
    pattern
}

/// No offset of a pattern is more than 3 away from the center.
pub proof fn lemma_base_pattern_small(symbol: char)
    ensures
        base_pattern(symbol).len() <= 4,
        forall|k: int|
            0 <= k < base_pattern(symbol).len() ==> -3 <= (#[trigger] base_pattern(symbol)[k]).0 <= 3
                && -3 <= base_pattern(symbol)[k].1 <= 3,
{
}

/// The pattern is the same for a letter in either case.
pub proof fn lemma_base_pattern_ignores_case(symbol: char)
    ensures
        base_pattern(fold_case(symbol)) == base_pattern(symbol),
{
}

/// The pattern that a shape given as a string names: that of its character
/// if it has exactly one, and none otherwise.
pub open spec fn shape_pattern(shape: Seq<char>) -> Seq<(i32, i32)> {
    if shape.len() == 1 {
        base_pattern(shape[0])
    } else {
        Seq::empty()
    }
}

/// Whether `cell` is at most `half` away from `center` in each direction.
pub open spec fn in_square(cell: (int, int), center: (i32, i32), half: int) -> bool {
    &&& center.0 - half <= cell.0 <= center.0 + half
    &&& center.1 - half <= cell.1 <= center.1 + half
}

/// Whether `cell` lies in the square of half-width `half` around one of the
/// first `count` offsets of `pattern`.
pub open spec fn covered_by_first(
    pattern: Seq<(i32, i32)>,
    count: int,
    half: int,
    cell: (int, int),
) -> bool {
    exists|j: int| 0 <= j < count && j < pattern.len() && #[trigger] in_square(cell, pattern[j], half)
}

/// Whether a room of the given pattern and size covers `cell`, as an offset
/// from the room center.
pub open spec fn covers(pattern: Seq<(i32, i32)>, size: int, cell: (int, int)) -> bool {
    covered_by_first(pattern, pattern.len() as int, size - 1, cell)
}

/// Whether every cell of a room of the given pattern and size has `i32`
/// coordinates.
pub open spec fn fits(pattern: Seq<(i32, i32)>, size: int) -> bool {
    forall|k: int|
        0 <= k < pattern.len() ==> {
            &&& i32::MIN <= (#[trigger] pattern[k]).0 - (size - 1)
            &&& pattern[k].0 + (size - 1) <= i32::MAX
            &&& i32::MIN <= pattern[k].1 - (size - 1)
            &&& pattern[k].1 + (size - 1) <= i32::MAX
        }
}

/// The offsets of `offsets` are exactly the cells that a room of the given
/// pattern and size covers, each listed once.
pub open spec fn is_expansion(offsets: Seq<(i32, i32)>, pattern: Seq<(i32, i32)>, size: int) -> bool {
    &&& offsets.no_duplicates()
    &&& forall|x: i32, y: i32| #[trigger]
        offsets.contains((x, y)) <==> covers(pattern, size, (x as int, y as int))
}

/// A room of size 1 is its pattern: the offsets of the room are those of
/// the pattern and no others.
pub proof fn lemma_size_one_is_pattern(offsets: Seq<(i32, i32)>, pattern: Seq<(i32, i32)>)
    requires
        is_expansion(offsets, pattern, 1),
    ensures
        forall|cell: (i32, i32)| #[trigger] offsets.contains(cell) <==> pattern.contains(cell),
        offsets.to_set() == pattern.to_set(),
{
    assert forall|cell: (i32, i32)| #[trigger] offsets.contains(cell) <==> pattern.contains(cell) by {
        let c = (cell.0 as int, cell.1 as int);
        assert(offsets.contains((cell.0, cell.1)) <==> covers(pattern, 1, c));
        if covers(pattern, 1, c) {
            let j = choose|j: int|
                0 <= j < pattern.len() && j < pattern.len() && #[trigger] in_square(c, pattern[j], 0);
            assert(pattern[j] == cell);
        }
        if pattern.contains(cell) {
            let j = choose|j: int| 0 <= j < pattern.len() && pattern[j] == cell;
            assert(in_square(c, pattern[j], 0));
        }
    }
    assert(offsets.to_set() =~= pattern.to_set());
}

/// A room of size 2 is, around every offset of its pattern, the block of
/// three by three cells, and nothing else; a cell of several blocks is
/// listed once.
pub proof fn lemma_size_two_is_blocks(offsets: Seq<(i32, i32)>, pattern: Seq<(i32, i32)>)
    requires
        is_expansion(offsets, pattern, 2),
    ensures
        offsets.no_duplicates(),
        forall|x: i32, y: i32| #[trigger]
            offsets.contains((x, y)) <==> exists|j: int|
                0 <= j < pattern.len() && -1 <= x - (#[trigger] pattern[j]).0 <= 1 && -1 <= y
                    - pattern[j].1 <= 1,
{
    assert forall|x: i32, y: i32| #[trigger]
        offsets.contains((x, y)) <==> exists|j: int|
            0 <= j < pattern.len() && -1 <= x - (#[trigger] pattern[j]).0 <= 1 && -1 <= y
                - pattern[j].1 <= 1 by {
        let cell = (x as int, y as int);
        if covers(pattern, 2, cell) {
            let j = choose|j: int|
                0 <= j < pattern.len() && j < pattern.len() && #[trigger] in_square(
                    cell,
                    pattern[j],
                    1,
                );
            assert(-1 <= x - pattern[j].0 <= 1 && -1 <= y - pattern[j].1 <= 1);
        }
        if exists|j: int|
            0 <= j < pattern.len() && -1 <= x - (#[trigger] pattern[j]).0 <= 1 && -1 <= y
                - pattern[j].1 <= 1 {
            let j = choose|j: int|
                0 <= j < pattern.len() && -1 <= x - (#[trigger] pattern[j]).0 <= 1 && -1 <= y
                    - pattern[j].1 <= 1;
            assert(in_square(cell, pattern[j], 1));
        }
    }
}

/// A room of size 0 is empty.
pub proof fn lemma_size_zero_is_empty(offsets: Seq<(i32, i32)>, pattern: Seq<(i32, i32)>)
    requires
        is_expansion(offsets, pattern, 0),
    ensures
        offsets.len() == 0,
{
    if offsets.len() > 0 {
        let cell = offsets[0];
        assert(offsets.contains((cell.0, cell.1)));
    }
}

/// Tests whether the cell `(x, y)` lies in the square around one of the first
/// `count` offsets of `pattern`.
fn covered_earlier(pattern: &Vec<(i32, i32)>, count: usize, half: i64, x: i64, y: i64) -> (yes:
    bool)
    requires
        count <= pattern@.len(),
        0 <= half <= i32::MAX,
    ensures
        yes == covered_by_first(pattern@, count as int, half as int, (x as int, y as int)),
{
    let mut j: usize = 0;
    while j < count
        invariant
            j <= count <= pattern@.len(),
            0 <= half <= i32::MAX,
            !covered_by_first(pattern@, j as int, half as int, (x as int, y as int)),
        decreases count - j,
    {
        let (bx, by) = pattern[j];
        if bx as i64 - half <= x && x <= bx as i64 + half && by as i64 - half <= y && y <= by as i64
            + half {
            assert(in_square((x as int, y as int), pattern@[j as int], half as int));
            return true;
        }
        j = j + 1;
    }
    false
}

/// Grows a pattern by a room size: lists once each cell that lies, in each
/// direction, at most `size - 1` away from an offset of the pattern.
pub fn expand_pattern(pattern: &Vec<(i32, i32)>, size: u32) -> (offsets: Vec<(i32, i32)>)
    requires
        fits(pattern@, size as int),
    ensures
        is_expansion(offsets@, pattern@, size as int),
{
    let mut offsets: Vec<(i32, i32)> = Vec::new();
    if size == 0 || pattern.len() == 0 {
        return offsets;
    }
    assert(size - 1 <= i32::MAX) by {
        let first = pattern@[0];
        assert(first.0 + (size - 1) <= i32::MAX);
        assert(i32::MIN <= first.0 - (size - 1));
    }
    let half: i64 = size as i64 - 1;
    let mut k: usize = 0;
    while k < pattern.len()
        invariant
            k <= pattern@.len(),
            half == size - 1,
            0 <= half <= i32::MAX,
            fits(pattern@, size as int),
            offsets@.no_duplicates(),
            forall|x: i32, y: i32| #[trigger]
                offsets@.contains((x, y)) <==> covered_by_first(
                    pattern@,
                    k as int,
                    half as int,
                    (x as int, y as int),
                ),
        decreases pattern@.len() - k,
    {
        let (bx, by) = pattern[k];
        let ghost center = pattern@[k as int];
        let x_end: i64 = bx as i64 + half;
        let y_end: i64 = by as i64 + half;
        let mut x: i64 = bx as i64 - half;
        while x <= x_end
            invariant
                k < pattern@.len(),
                center == pattern@[k as int],
                center == (bx, by),
                x_end == bx + half,
                y_end == by + half,
                bx - half <= x <= x_end + 1,
                0 <= half <= i32::MAX,
                i32::MIN <= bx - half,
                x_end <= i32::MAX,
                i32::MIN <= by - half,
                y_end <= i32::MAX,
                offsets@.no_duplicates(),
                forall|cx: i32, cy: i32| #[trigger]
                    offsets@.contains((cx, cy)) <==> covered_by_first(
                        pattern@,
                        k as int,
                        half as int,
                        (cx as int, cy as int),
                    ) || (in_square((cx as int, cy as int), center, half as int) && cx < x),
            decreases x_end + 1 - x,
        {
            let mut y: i64 = by as i64 - half;
            while y <= y_end
                invariant
                    k < pattern@.len(),
                    center == pattern@[k as int],
                    center == (bx, by),
                    x_end == bx + half,
                    y_end == by + half,
                    bx - half <= x <= x_end,
                    by - half <= y <= y_end + 1,
                    0 <= half <= i32::MAX,
                    i32::MIN <= bx - half,
                    x_end <= i32::MAX,
                    i32::MIN <= by - half,
                    y_end <= i32::MAX,
                    offsets@.no_duplicates(),
                    forall|cx: i32, cy: i32| #[trigger]
                        offsets@.contains((cx, cy)) <==> covered_by_first(
                            pattern@,
                            k as int,
                            half as int,
                            (cx as int, cy as int),
                        ) || (in_square((cx as int, cy as int), center, half as int) && (cx < x || (
                        cx == x && cy < y))),
                decreases y_end + 1 - y,
            {
                if !covered_earlier(pattern, k, half, x, y) {
                    let cell: (i32, i32) = (x as i32, y as i32);
                    proof {
                        lemma_push_fresh(offsets@, cell);
                    }
                    offsets.push(cell);
                }
                y = y + 1;
            }
            x = x + 1;
        }
        proof {
            assert forall|cx: i32, cy: i32| #[trigger]
                offsets@.contains((cx, cy)) <==> covered_by_first(
                    pattern@,
                    k as int + 1,
                    half as int,
                    (cx as int, cy as int),
                ) by {
                let c = (cx as int, cy as int);
                if covered_by_first(pattern@, k as int + 1, half as int, c) {
                    let j = choose|j: int|
                        0 <= j < k + 1 && j < pattern@.len() && #[trigger] in_square(
                            c,
                            pattern@[j],
                            half as int,
                        );
                    if j < k {
                        assert(covered_by_first(pattern@, k as int, half as int, c));
                    }
                }
                if covered_by_first(pattern@, k as int, half as int, c) {
                    let j = choose|j: int|
                        0 <= j < k && j < pattern@.len() && #[trigger] in_square(
                            c,
                            pattern@[j],
                            half as int,
                        );
                    assert(in_square(c, pattern@[j], half as int));
                }
                if in_square(c, center, half as int) {
                    assert(in_square(c, pattern@[k as int], half as int));
                }
            }
        }
        k = k + 1;
    }
    offsets
}

/// The offsets, from the room center, of the cells of a room with the given
/// size and shape symbol.
pub fn room_offsets(size: u32, symbol: char) -> (offsets: Vec<(i32, i32)>)
    requires
        size <= MAX_ROOM_SIZE,
    ensures
        is_expansion(offsets@, base_pattern(symbol), size as int),
{
    let pattern = base_offsets(symbol);
    proof {
        lemma_base_pattern_small(symbol);
    }
    expand_pattern(&pattern, size)
}

/// The offsets, from the room center, of the cells of a room with the given
/// size and shape. The shape is a string of one symbol; any other string
/// names no pattern, and the room is empty.
pub fn get_room_offsets(size: u32, shape: String) -> (offsets: Vec<(i32, i32)>)
    requires
        size <= MAX_ROOM_SIZE,
    ensures
        is_expansion(offsets@, shape_pattern(shape@), size as int),
{
    let text = shape.as_str();
    if text.unicode_len() == 1 {
        room_offsets(size, text.get_char(0))
    } else {
        let offsets: Vec<(i32, i32)> = Vec::new();
        assert(!covered_by_first(Seq::<(i32, i32)>::empty(), 0, size - 1, (0, 0)));
        offsets
    }
}

} // verus!
