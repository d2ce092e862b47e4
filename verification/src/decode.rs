//! Reading the fields of a dungeon off a token.
//!
//! A token is `nft1`, one symbol for the number of rooms, and then the symbols
//! from which the rooms are read:
//!
//! - the room count is 2 plus the value of the symbol after the prefix;
//! - the centers take two symbols for each room, x then y, from the symbol
//!   after the room count on, and each coordinate is the symbol's value times
//!   the square root of the room count, rounded;
//! - the shapes take one symbol for each room, after those of the centers;
//! - the sizes take one symbol for each room, the last symbols of the token.
//!
//! Centers and shapes that would be read past the end of the token are read
//! again from the symbol after the room count on, in a cycle. Sizes are read
//! from the end of the token and may share symbols with what comes before.

use vstd::prelude::*;
use crate::census::count_letters;
use crate::census::dominant_letter;
use crate::census::frequency_map;
use crate::census::is_dominant;
use crate::census::lemma_dominant_unique;
use crate::census::lemma_occurrences_positive;
use crate::census::CharFrequency;
use crate::error::DecodeError;
use crate::rounding::is_nearest_root;
use crate::rounding::nearest_root;
use crate::rounding::lemma_nearest_root_bound;
use crate::rounding::lemma_nearest_root_exists;
use crate::rounding::rounded_root;
use crate::symbols::char_to_num;
use crate::symbols::is_alphanumeric;
use crate::symbols::is_lower;
use crate::symbols::is_symbol;
use crate::symbols::symbol_value;

verus! {

/// What a token says of a dungeon before anything is dug.
#[derive(Debug)]
pub struct TokenFields {
    /// The number of rooms.
    pub room_count: usize,
    /// The center of each room, in the order of the token.
    pub centers: Vec<(i32, i32)>,
    /// The size of each room.
    pub sizes: Vec<u32>,
    /// The shape symbol of each room.
    pub shapes: Vec<char>,
    /// The least x of a center less 1, and the greatest plus 1.
    pub x_range: (i32, i32),
    /// The least y of a center less 1, and the greatest plus 1.
    pub y_range: (i32, i32),
    /// The sum of the areas of the rooms, a room of size `n` counting as a
    /// square of side `2n + 1`.
    pub area: u64,
    /// How often each lower-case letter occurs in the token.
    pub frequency: CharFrequency,
    /// The dominant letter of the token.
    pub dominant: Option<char>,
}

/// Whether `s` begins with `nft1`.
pub open spec fn has_prefix(s: Seq<char>) -> bool {
    s.len() >= 4 && s[0] == 'n' && s[1] == 'f' && s[2] == 't' && s[3] == '1'
}

/// The number of rooms that `s` announces.
pub open spec fn room_count(s: Seq<char>) -> nat {
    (2 + symbol_value(s[4])) as nat
}

/// The symbol that stands for position `index` of `s`, for a position after
/// the room count: the character at `index`, or, past the end of `s`, the
/// character that a cycle through the symbols after the room count reaches.
pub open spec fn symbol_at(s: Seq<char>, index: int) -> char {
    s[5 + (index - 5) % (s.len() - 5)]
}

/// The symbol of the `i`-th coordinate: the coordinates of the rooms are
/// numbered from 0, x before y.
pub open spec fn coordinate_symbol(s: Seq<char>, i: int) -> char {
    symbol_at(s, 5 + i)
}

/// The symbol of the shape of room `k`.
pub open spec fn shape_symbol(s: Seq<char>, k: int) -> char {
    symbol_at(s, 5 + 2 * room_count(s) + k)
}

/// The symbol of the size of room `k`.
pub open spec fn size_symbol(s: Seq<char>, k: int) -> char {
    s[s.len() - room_count(s) + k]
}

/// A symbol's value times the square root of the room count, rounded to the
/// nearest integer. The product is the square root of `value * value * rooms`.
pub open spec fn scaled_coordinate(value: int, rooms: int) -> int {
    nearest_root((value * value * rooms) as nat, 1) as int
}

/// The room size that a symbol's value gives: 2, plus one and a half times
/// the square root of the value, rounded, less a quarter of the square root of
/// the room count, rounded. The first product is the square root of
/// `9 value / 4`, the second that of `rooms / 16`.
pub open spec fn size_formula(value: int, rooms: int) -> int {
    2 + nearest_root((9 * value) as nat, 4) - nearest_root(rooms as nat, 16)
}

/// The area of a room of the given size: a square of side `2 size + 1`.
pub open spec fn room_area(size: int) -> int {
    (2 * size + 1) * (2 * size + 1)
}

/// The sum of the areas of rooms of the given sizes.
pub open spec fn total_area(sizes: Seq<u32>) -> int
    decreases sizes.len(),
{
    if sizes.len() == 0 {
        0
    } else {
        total_area(sizes.drop_last()) + room_area(sizes.last() as int)
    }
}

/// The center of room `k`.
pub open spec fn center_of(s: Seq<char>, k: int) -> (i32, i32) {
    (
        scaled_coordinate(symbol_value(coordinate_symbol(s, 2 * k)), room_count(s) as int) as i32,
        scaled_coordinate(symbol_value(coordinate_symbol(s, 2 * k + 1)), room_count(s) as int) as i32,
    )
}

/// The size of room `k`.
pub open spec fn size_of(s: Seq<char>, k: int) -> int {
    size_formula(symbol_value(size_symbol(s, k)), room_count(s) as int)
}

/// The centers of the rooms.
pub open spec fn centers_of(s: Seq<char>) -> Seq<(i32, i32)> {
    Seq::new(room_count(s), |k: int| center_of(s, k))
}

/// The sizes of the rooms.
pub open spec fn sizes_of(s: Seq<char>) -> Seq<u32> {
    Seq::new(room_count(s), |k: int| size_of(s, k) as u32)
}

/// The shape symbols of the rooms.
pub open spec fn shapes_of(s: Seq<char>) -> Seq<char> {
    Seq::new(room_count(s), |k: int| shape_symbol(s, k))
}

/// `range` is the range of the x coordinates of `centers`, widened by 1 at
/// either end; around no center at all it is `(-1, 1)`.
pub open spec fn is_x_range(centers: Seq<(i32, i32)>, range: (i32, i32)) -> bool {
    if centers.len() == 0 {
        range == (-1i32, 1i32)
    } else {
        &&& forall|k: int| 0 <= k < centers.len() ==> range.0 < (#[trigger] centers[k]).0 < range.1
        &&& exists|k: int| 0 <= k < centers.len() && (#[trigger] centers[k]).0 == range.0 + 1
        &&& exists|k: int| 0 <= k < centers.len() && (#[trigger] centers[k]).0 == range.1 - 1
    }
}

/// `range` is the range of the y coordinates of `centers`, widened by 1 at
/// either end; around no center at all it is `(-1, 1)`.
pub open spec fn is_y_range(centers: Seq<(i32, i32)>, range: (i32, i32)) -> bool {
    if centers.len() == 0 {
        range == (-1i32, 1i32)
    } else {
        &&& forall|k: int| 0 <= k < centers.len() ==> range.0 < (#[trigger] centers[k]).1 < range.1
        &&& exists|k: int| 0 <= k < centers.len() && (#[trigger] centers[k]).1 == range.0 + 1
        &&& exists|k: int| 0 <= k < centers.len() && (#[trigger] centers[k]).1 == range.1 - 1
    }
}

/// Why `s` gives no dungeon, if it gives none. The tests are made in this
/// order: the prefix; that a room count follows it; that the room count is a
/// symbol; that symbols follow it; that every coordinate is a symbol; that
/// the token has a character for the size of each room; that every size is a
/// symbol and gives a size that is not negative.
pub open spec fn decode_failure(s: Seq<char>) -> Option<DecodeError> {
    if !has_prefix(s) {
        Some(DecodeError::InvalidPrefix)
    } else if s.len() < 5 {
        Some(DecodeError::TooShort)
    } else if !is_symbol(s[4]) {
        Some(DecodeError::InvalidCharacter)
    } else if s.len() == 5 {
        Some(DecodeError::TooShort)
    } else if exists|i: int| 0 <= i < 2 * room_count(s) && !is_symbol(#[trigger] coordinate_symbol(s, i)) {
        Some(DecodeError::InvalidCharacter)
    } else if s.len() < room_count(s) {
        Some(DecodeError::IndexOutOfBounds)
    } else if exists|k: int|
        0 <= k < room_count(s) && (!is_symbol(#[trigger] size_symbol(s, k)) || size_of(s, k) < 0) {
        Some(DecodeError::InvalidCharacter)
    } else {
        None
    }
}

/// `fields` is what `s` says of a dungeon.
pub open spec fn decodes_to(s: Seq<char>, fields: TokenFields) -> bool {
    &&& fields.room_count == room_count(s)
    &&& fields.centers@ == centers_of(s)
    &&& fields.sizes@ == sizes_of(s)
    &&& fields.shapes@ == shapes_of(s)
    &&& is_x_range(fields.centers@, fields.x_range)
    &&& is_y_range(fields.centers@, fields.y_range)
    &&& fields.area == total_area(fields.sizes@)
    &&& fields.frequency@ == frequency_map(s)
    &&& match fields.dominant {
        Some(c) => is_dominant(s, c),
        None => forall|c: char| is_lower(c) ==> !s.contains(c),
    }
}

/// The range of the x coordinates of `centers`, widened by 1 at either end.
pub open spec fn x_range_of(centers: Seq<(i32, i32)>) -> (i32, i32) {
    choose|range: (i32, i32)| is_x_range(centers, range)
}

/// The range of the y coordinates of `centers`, widened by 1 at either end.
pub open spec fn y_range_of(centers: Seq<(i32, i32)>) -> (i32, i32) {
    choose|range: (i32, i32)| is_y_range(centers, range)
}

/// Centers have one range of x coordinates and one of y coordinates.
pub proof fn lemma_range_unique(centers: Seq<(i32, i32)>, range: (i32, i32))
    ensures
        is_x_range(centers, range) ==> x_range_of(centers) == range,
        is_y_range(centers, range) ==> y_range_of(centers) == range,
{
    if is_x_range(centers, range) {
        let other = x_range_of(centers);
        assert(is_x_range(centers, other));
        if centers.len() > 0 {
            let a = choose|k: int| 0 <= k < centers.len() && (#[trigger] centers[k]).0 == range.0 + 1;
            let b = choose|k: int| 0 <= k < centers.len() && (#[trigger] centers[k]).0 == range.1 - 1;
            let c = choose|k: int| 0 <= k < centers.len() && (#[trigger] centers[k]).0 == other.0 + 1;
            let e = choose|k: int| 0 <= k < centers.len() && (#[trigger] centers[k]).0 == other.1 - 1;
            assert(other.0 < centers[a].0 < other.1);
            assert(other.0 < centers[b].0 < other.1);
            assert(range.0 < centers[c].0 < range.1);
            assert(range.0 < centers[e].0 < range.1);
        }
    }
    if is_y_range(centers, range) {
        let other = y_range_of(centers);
        assert(is_y_range(centers, other));
        if centers.len() > 0 {
            let a = choose|k: int| 0 <= k < centers.len() && (#[trigger] centers[k]).1 == range.0 + 1;
            let b = choose|k: int| 0 <= k < centers.len() && (#[trigger] centers[k]).1 == range.1 - 1;
            let c = choose|k: int| 0 <= k < centers.len() && (#[trigger] centers[k]).1 == other.0 + 1;
            let e = choose|k: int| 0 <= k < centers.len() && (#[trigger] centers[k]).1 == other.1 - 1;
            assert(other.0 < centers[a].1 < other.1);
            assert(other.0 < centers[b].1 < other.1);
            assert(range.0 < centers[c].1 < range.1);
            assert(range.0 < centers[e].1 < range.1);
        }
    }
}

/// Rooms of sizes up to 11 have a total area of at most 529 each.
pub proof fn lemma_total_area_bound(sizes: Seq<u32>)
    requires
        forall|k: int| 0 <= k < sizes.len() ==> #[trigger] sizes[k] <= 11,
    ensures
        0 <= total_area(sizes) <= 529 * sizes.len(),
    decreases sizes.len(),
{
    if sizes.len() > 0 {
        lemma_total_area_bound(sizes.drop_last());
        let side = 2 * sizes.last() + 1;
        assert(0 <= side * side <= 529) by (nonlinear_arith)
            requires
                0 <= side <= 23,
        ;
    }
}

/// What holds of every token that gives a dungeon: it has 2 to 37 rooms,
/// with centers from 0 to 45325 in either coordinate, sizes up to 11 and a
/// total area of at most 529 for each room.
pub proof fn lemma_decoded_bounds(s: Seq<char>)
    requires
        decode_failure(s) is None,
    ensures
        2 <= room_count(s) <= 37,
        room_count(s) == 2 + symbol_value(s[4]) % 36,
        centers_of(s).len() == room_count(s),
        sizes_of(s).len() == room_count(s),
        shapes_of(s).len() == room_count(s),
        forall|k: int|
            0 <= k < room_count(s) ==> 0 <= (#[trigger] centers_of(s)[k]).0 <= 45325 && 0
                <= centers_of(s)[k].1 <= 45325,
        forall|k: int| 0 <= k < room_count(s) ==> 0 <= #[trigger] size_of(s, k) <= 11,
        forall|k: int| 0 <= k < room_count(s) ==> #[trigger] sizes_of(s)[k] <= 11,
        0 <= total_area(sizes_of(s)) <= 529 * room_count(s),
{
    let rooms = room_count(s) as int;
    assert forall|k: int| 0 <= k < room_count(s) implies 0 <= (#[trigger] centers_of(s)[k]).0
        <= 45325 && 0 <= centers_of(s)[k].1 <= 45325 by {
        assert(is_symbol(coordinate_symbol(s, 2 * k)));
        assert(is_symbol(coordinate_symbol(s, 2 * k + 1)));
        lemma_scaled_coordinate_bound(symbol_value(coordinate_symbol(s, 2 * k)), rooms);
        lemma_scaled_coordinate_bound(symbol_value(coordinate_symbol(s, 2 * k + 1)), rooms);
    }
    assert forall|k: int| 0 <= k < room_count(s) implies 0 <= #[trigger] size_of(s, k) <= 11 by {
        assert(is_symbol(size_symbol(s, k)));
        lemma_size_not_negative(symbol_value(size_symbol(s, k)), rooms);
    }
    lemma_total_area_bound(sizes_of(s));
}

/// A coordinate is at least 0 and at most 45325.
pub proof fn lemma_scaled_coordinate_bound(value: int, rooms: int)
    requires
        0 <= value < 36,
        0 <= rooms <= 37,
    ensures
        0 <= value * value * rooms <= 45325,
        0 <= scaled_coordinate(value, rooms) <= 45325,
{
    let num = (value * value * rooms) as nat;
    assert(0 <= value * value * rooms <= 45325) by (nonlinear_arith)
        requires
            0 <= value <= 35,
            0 <= rooms <= 37,
    ;
    lemma_nearest_root_exists(num, 1);
    lemma_nearest_root_bound(nearest_root(num, 1), num, 1);
}

/// A token that can be read has 2 rooms plus the value of its fifth
/// character, and a center, a size and a shape for each of them.
pub proof fn lemma_room_count(s: Seq<char>, fields: TokenFields)
    requires
        decode_failure(s) is None,
        decodes_to(s, fields),
    ensures
        fields.room_count == 2 + symbol_value(s[4]) % 36,
        fields.centers@.len() == fields.room_count,
        fields.sizes@.len() == fields.room_count,
        fields.shapes@.len() == fields.room_count,
{
    lemma_decoded_bounds(s);
}

/// A token says one thing: any two readings of it agree in every field.
pub proof fn lemma_fields_determined(s: Seq<char>, first: TokenFields, second: TokenFields)
    requires
        decodes_to(s, first),
        decodes_to(s, second),
    ensures
        first.room_count == second.room_count,
        first.centers@ == second.centers@,
        first.sizes@ == second.sizes@,
        first.shapes@ == second.shapes@,
        first.x_range == second.x_range,
        first.y_range == second.y_range,
        first.area == second.area,
        first.frequency@ == second.frequency@,
        first.dominant == second.dominant,
{
    lemma_range_unique(centers_of(s), first.x_range);
    lemma_range_unique(centers_of(s), second.x_range);
    lemma_range_unique(centers_of(s), first.y_range);
    lemma_range_unique(centers_of(s), second.y_range);
    match (first.dominant, second.dominant) {
        (Some(a), Some(b)) => {
            lemma_dominant_unique(s, a, b);
        },
        (Some(a), None) => {
            lemma_occurrences_positive(s, a);
        },
        (None, Some(b)) => {
            lemma_occurrences_positive(s, b);
        },
        (None, None) => {},
    }
}

/// The characters of a token, one by one.
pub fn token_chars(token: &str) -> (chars: Vec<char>)
    ensures
        chars@ == token@,
{
    let mut chars: Vec<char> = Vec::new();
    for c in it: token.chars()
        invariant
            chars@ == it.seq().take(it.index()),
            it.seq() == token@,
    {
        chars.push(c);
        assert(chars@ =~= it.seq().take(it.index() + 1));
    }
    assert(chars@ =~= token@);
    chars
}

/// Scales the value of a symbol by the square root of the room count and
/// rounds to the nearest integer.
pub fn coordinate(value: u32, rooms: u32) -> (c: i32)
    requires
        value * value * rooms <= u32::MAX,
    ensures
        c == scaled_coordinate(value as int, rooms as int),
{
    if value == 0 || rooms == 0 {
        assert(value * value * rooms == 0) by (nonlinear_arith)
            requires
                value == 0 || rooms == 0,
        ;
        return rounded_root(0, 1) as i32;
    }
    assert(value * value <= value * value * rooms) by (nonlinear_arith)
        requires
            rooms >= 1,
            value >= 0,
    ;
    let root = rounded_root(value * value * rooms, 1);
    proof {
        lemma_whole_root_small(root as nat, (value * value * rooms) as nat);
    }
    root as i32
}

/// The rounded square root of a number that fits in 32 bits fits in 17.
proof fn lemma_whole_root_small(r: nat, num: nat)
    requires
        num <= u32::MAX,
        is_nearest_root(r, num, 1),
    ensures
        r <= 0x1_0000,
{
    if r > 0x1_0000 {
        assert((2 * r - 1) * (2 * r - 1) * 1 > 4 * 0xffff_ffff) by (nonlinear_arith)
            requires
                r >= 0x1_0001,
        ;
    }
}

/// For a symbol's value, one and a half times its square root, rounded, is at
/// most 9.
proof fn lemma_size_term_small(r: nat, value: nat)
    requires
        value < 36,
        is_nearest_root(r, 9 * value, 4),
    ensures
        r <= 9,
{
    if r >= 10 {
        assert((2 * r - 1) * (2 * r - 1) * 4 >= 1444) by (nonlinear_arith)
            requires
                r >= 10,
        ;
    }
}

/// Computes the size of a room from the value of its size symbol and the
/// number of rooms. A size below zero is no size.
pub fn room_size(value: u32, rooms: u32) -> (result: Result<u32, DecodeError>)
    requires
        9 * value <= u32::MAX,
    ensures
        match result {
            Ok(size) => size == size_formula(value as int, rooms as int),
            Err(e) => e == DecodeError::InvalidCharacter && size_formula(value as int, rooms as int)
                < 0,
        },
{
    let grown: u32 = rounded_root(9 * value, 4);
    let shrunk: u32 = rounded_root(rooms, 16);
    proof {
        lemma_nearest_root_bound(grown as nat, (9 * value) as nat, 4);
    }
    if shrunk > 2 + grown {
        Err(DecodeError::InvalidCharacter)
    } else {
        Ok(2 + grown - shrunk)
    }
}

/// With at most 99 rooms no symbol gives a size below zero.
pub proof fn lemma_size_not_negative(value: int, rooms: int)
    requires
        0 <= value < 36,
        0 <= rooms < 100,
    ensures
        0 <= size_formula(value, rooms) <= 11,
{
    let grown = nearest_root((9 * value) as nat, 4);
    let shrunk = nearest_root(rooms as nat, 16);
    lemma_nearest_root_exists((9 * value) as nat, 4);
    lemma_nearest_root_exists(rooms as nat, 16);
    lemma_size_term_small(grown, value as nat);
    if shrunk >= 3 {
        assert((2 * shrunk - 1) * (2 * shrunk - 1) * 16 >= 400) by (nonlinear_arith)
            requires
                shrunk >= 3,
        ;
    }
}

/// The character that stands for position `index`, see [`symbol_at`].
fn wrapped_symbol(chars: &Vec<char>, index: usize) -> (c: char)
    requires
        chars@.len() > 5,
        index >= 5,
    ensures
        c == symbol_at(chars@, index as int),
{
    chars[5 + (index - 5) % (chars.len() - 5)]
}

/// Reads the centers of the rooms.
fn decode_centers(chars: &Vec<char>, rooms: usize) -> (result: Result<Vec<(i32, i32)>, DecodeError>)
    requires
        chars@.len() > 5,
        rooms == room_count(chars@),
        2 <= rooms <= 37,
    ensures
        match result {
            Ok(centers) => {
                &&& forall|i: int|
                    0 <= i < 2 * rooms ==> is_symbol(#[trigger] coordinate_symbol(chars@, i))
                &&& centers@ == centers_of(chars@)
                &&& forall|k: int|
                    0 <= k < centers@.len() ==> 0 <= (#[trigger] centers@[k]).0 <= 45325 && 0
                        <= centers@[k].1 <= 45325
            },
            Err(e) => {
                &&& e == DecodeError::InvalidCharacter
                &&& exists|i: int|
                    0 <= i < 2 * rooms && !is_symbol(#[trigger] coordinate_symbol(chars@, i))
            },
        },
{
    let ghost s = chars@;
    let mut centers: Vec<(i32, i32)> = Vec::new();
    let mut k: usize = 0;
    while k < rooms
        invariant
            s == chars@,
            s.len() > 5,
            rooms == room_count(s),
            2 <= rooms <= 37,
            k <= rooms,
            centers@.len() == k,
            forall|i: int| 0 <= i < 2 * k ==> is_symbol(#[trigger] coordinate_symbol(s, i)),
            forall|j: int| 0 <= j < k ==> #[trigger] centers@[j] == center_of(s, j),
            forall|j: int|
                0 <= j < k ==> 0 <= (#[trigger] centers@[j]).0 <= 45325 && 0 <= centers@[j].1
                    <= 45325,
        decreases rooms - k,
    {
        let x_symbol = wrapped_symbol(chars, 5 + 2 * k);
        let y_symbol = wrapped_symbol(chars, 5 + 2 * k + 1);
        assert(x_symbol == coordinate_symbol(s, 2 * k));
        assert(y_symbol == coordinate_symbol(s, 2 * k + 1));
        if !is_alphanumeric(x_symbol) || !is_alphanumeric(y_symbol) {
            return Err(DecodeError::InvalidCharacter);
        }
        proof {
            lemma_scaled_coordinate_bound(symbol_value(x_symbol), rooms as int);
            lemma_scaled_coordinate_bound(symbol_value(y_symbol), rooms as int);
        }
        let x = coordinate(char_to_num(x_symbol) as u32, rooms as u32);
        let y = coordinate(char_to_num(y_symbol) as u32, rooms as u32);
        centers.push((x, y));
        assert forall|i: int| 0 <= i < 2 * (k + 1) implies is_symbol(
            #[trigger] coordinate_symbol(s, i),
        ) by {
            if i == 2 * k {
            } else if i == 2 * k + 1 {
            } else {
                assert(i < 2 * k);
            }
        }
        k = k + 1;
    }
    assert(centers@ =~= centers_of(s));
    Ok(centers)
}

/// Reads the sizes of the rooms and adds up their areas.
fn decode_sizes(chars: &Vec<char>, rooms: usize) -> (result: Result<(Vec<u32>, u64), DecodeError>)
    requires
        rooms == room_count(chars@),
        2 <= rooms <= 37,
        rooms <= chars@.len(),
    ensures
        match result {
            Ok((sizes, area)) => {
                &&& forall|k: int|
                    0 <= k < rooms ==> is_symbol(#[trigger] size_symbol(chars@, k)) && size_of(
                        chars@,
                        k,
                    ) >= 0
                &&& sizes@ == sizes_of(chars@)
                &&& forall|k: int| 0 <= k < sizes@.len() ==> #[trigger] sizes@[k] <= 11
                &&& area == total_area(sizes@)
                &&& area <= 529 * rooms
            },
            Err(e) => {
                &&& e == DecodeError::InvalidCharacter
                &&& exists|k: int|
                    0 <= k < rooms && (!is_symbol(#[trigger] size_symbol(chars@, k)) || size_of(
                        chars@,
                        k,
                    ) < 0)
            },
        },
{
    let ghost s = chars@;
    let start: usize = chars.len() - rooms;
    let mut sizes: Vec<u32> = Vec::new();
    let mut area: u64 = 0;
    let mut k: usize = 0;
    while k < rooms
        invariant
            s == chars@,
            rooms == room_count(s),
            2 <= rooms <= 37,
            rooms <= s.len() <= usize::MAX,
            start == s.len() - rooms,
            k <= rooms,
            sizes@.len() == k,
            forall|j: int|
                0 <= j < k ==> is_symbol(#[trigger] size_symbol(s, j)) && size_of(s, j) >= 0,
            forall|j: int| 0 <= j < k ==> #[trigger] sizes@[j] == size_of(s, j),
            forall|j: int| 0 <= j < k ==> #[trigger] sizes@[j] <= 11,
            area == total_area(sizes@),
            area <= 529 * k,
        decreases rooms - k,
    {
        let symbol = chars[start + k];
        assert(symbol == size_symbol(s, k as int));
        if !is_alphanumeric(symbol) {
            return Err(DecodeError::InvalidCharacter);
        }
        proof {
            lemma_size_not_negative(symbol_value(symbol), rooms as int);
        }
        let size = match room_size(char_to_num(symbol) as u32, rooms as u32) {
            Ok(size) => size,
            Err(e) => {
                return Err(e);
            },
        };
        let side: u64 = 2 * (size as u64) + 1;
        assert(side * side <= 529) by (nonlinear_arith)
            requires
                side <= 23,
        ;
        let ghost before = sizes@;
        sizes.push(size);
        assert(sizes@.drop_last() == before);
        area = area + side * side;
        k = k + 1;
    }
    assert(sizes@ =~= sizes_of(s));
    Ok((sizes, area))
}

/// Reads the shape symbols of the rooms.
fn decode_shapes(chars: &Vec<char>, rooms: usize) -> (shapes: Vec<char>)
    requires
        chars@.len() > 5,
        rooms == room_count(chars@),
        2 <= rooms <= 37,
    ensures
        shapes@ == shapes_of(chars@),
{
    let ghost s = chars@;
    let mut shapes: Vec<char> = Vec::new();
    let mut k: usize = 0;
    while k < rooms
        invariant
            s == chars@,
            s.len() > 5,
            rooms == room_count(s),
            2 <= rooms <= 37,
            k <= rooms,
            shapes@.len() == k,
            forall|j: int| 0 <= j < k ==> #[trigger] shapes@[j] == shape_symbol(s, j),
        decreases rooms - k,
    {
        let symbol = wrapped_symbol(chars, 5 + 2 * rooms + k);
        shapes.push(symbol);
        k = k + 1;
    }
    assert(shapes@ =~= shapes_of(s));
    shapes
}

/// Finds the ranges of the x and of the y coordinates of the centers, each
/// widened by 1 at either end.
pub fn bounding_box(centers: &Vec<(i32, i32)>) -> (ranges: ((i32, i32), (i32, i32)))
    requires
        forall|k: int|
            0 <= k < centers@.len() ==> i32::MIN < (#[trigger] centers@[k]).0 < i32::MAX && i32::MIN
                < centers@[k].1 < i32::MAX,
    ensures
        is_x_range(centers@, ranges.0),
        is_y_range(centers@, ranges.1),
{
    if centers.len() == 0 {
        return ((-1, 1), (-1, 1));
    }
    let first = centers[0];
    let mut min_x: i32 = first.0;
    let mut max_x: i32 = first.0;
    let mut min_y: i32 = first.1;
    let mut max_y: i32 = first.1;
    let mut k: usize = 1;
    while k < centers.len()
        invariant
            1 <= k <= centers@.len(),
            forall|j: int|
                0 <= j < centers@.len() ==> i32::MIN < (#[trigger] centers@[j]).0 < i32::MAX
                    && i32::MIN < centers@[j].1 < i32::MAX,
            forall|j: int|
                0 <= j < k ==> min_x <= (#[trigger] centers@[j]).0 <= max_x && min_y
                    <= centers@[j].1 <= max_y,
            exists|j: int| 0 <= j < k && (#[trigger] centers@[j]).0 == min_x,
            exists|j: int| 0 <= j < k && (#[trigger] centers@[j]).0 == max_x,
            exists|j: int| 0 <= j < k && (#[trigger] centers@[j]).1 == min_y,
            exists|j: int| 0 <= j < k && (#[trigger] centers@[j]).1 == max_y,
        decreases centers@.len() - k,
    {
        let center = centers[k];
        if center.0 < min_x {
            min_x = center.0;
        }
        if center.0 > max_x {
            max_x = center.0;
        }
        if center.1 < min_y {
            min_y = center.1;
        }
        if center.1 > max_y {
            max_y = center.1;
        }
        k = k + 1;
    }
    ((min_x - 1, max_x + 1), (min_y - 1, max_y + 1))
}

/// Reads the fields of a dungeon off a token, or says why the token gives
/// none.
pub fn decode_token(token: &str) -> (result: Result<TokenFields, DecodeError>)
    ensures
        match result {
            Ok(fields) => decode_failure(token@) is None && decodes_to(token@, fields),
            Err(e) => decode_failure(token@) == Some(e),
        },
{
    let chars = token_chars(token);
    let ghost s = chars@;
    let len = chars.len();
    if len < 4 || chars[0] != 'n' || chars[1] != 'f' || chars[2] != 't' || chars[3] != '1' {
        return Err(DecodeError::InvalidPrefix);
    }
    if len < 5 {
        return Err(DecodeError::TooShort);
    }
    let count_symbol = chars[4];
    if !is_alphanumeric(count_symbol) {
        return Err(DecodeError::InvalidCharacter);
    }
    let rooms: usize = 2 + char_to_num(count_symbol) as usize;
    if len == 5 {
        return Err(DecodeError::TooShort);
    }
    let centers = match decode_centers(&chars, rooms) {
        Ok(centers) => centers,
        Err(e) => {
            return Err(e);
        },
    };
    if len < rooms {
        return Err(DecodeError::IndexOutOfBounds);
    }
    let (sizes, area) = match decode_sizes(&chars, rooms) {
        Ok(read) => read,
        Err(e) => {
            return Err(e);
        },
    };
    let shapes = decode_shapes(&chars, rooms);
    let (x_range, y_range) = bounding_box(&centers);
    let frequency = count_letters(&chars);
    let dominant = dominant_letter(&chars);
    Ok(TokenFields { room_count: rooms, centers, sizes, shapes, x_range, y_range, area, frequency, dominant })
}

} // verus!
