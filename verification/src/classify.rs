//! The biome and the level of a dungeon.
//!
//! The biome goes by the dominant letter of the token, the level by the total
//! area of the rooms: one level for every full thousand, starting at 1.

use vstd::prelude::*;

verus! {

/// The name of the biome that a letter stands for; `Unknown` for a character
/// that is no lower-case letter.
pub open spec fn biome_name(letter: char) -> Seq<char> {
    if letter == 'a' {
        "Ancient Ruins"@
    } else if letter == 'b' {
        "Barrens"@
    } else if letter == 'c' {
        "Cave"@
    } else if letter == 'd' {
        "Desert"@
    } else if letter == 'e' {
        "Enchanted Forest"@
    } else if letter == 'f' {
        "Forest"@
    } else if letter == 'g' {
        "Grassland"@
    } else if letter == 'h' {
        "Hell"@
    } else if letter == 'i' {
        "Ice Cavern"@
    } else if letter == 'j' {
        "Jungle"@
    } else if letter == 'k' {
        "Kingdom Ruins"@
    } else if letter == 'l' {
        "Lava Pits"@
    } else if letter == 'm' {
        "Mountain"@
    } else if letter == 'n' {
        "Necropolis"@
    } else if letter == 'o' {
        "Ocean Depths"@
    } else if letter == 'p' {
        "Poison Swamp"@
    } else if letter == 'q' {
        "Quagmire"@
    } else if letter == 'r' {
        "Rainforest"@
    } else if letter == 's' {
        "Swamp"@
    } else if letter == 't' {
        "Temple"@
    } else if letter == 'u' {
        "Underground Tunnels"@
    } else if letter == 'v' {
        "Volcanic Crater"@
    } else if letter == 'w' {
        "Water"@
    } else if letter == 'x' {
        "Xeno Hive"@
    } else if letter == 'y' {
        "Yellow Wasteland"@
    } else if letter == 'z' {
        "Zephyr Highlands"@
    } else {
        "Unknown"@
    }
}

/// The biome that the dominant letter of a token gives, where `dominant` is
/// that letter as a string: the biome of its one character, and `Unknown` for
/// a string of any other length.
pub open spec fn biome_of(dominant: Seq<char>) -> Seq<char> {
    if dominant.len() == 1 {
        biome_name(dominant[0])
    } else {
        "Unknown"@
    }
}

/// The level of a dungeon whose rooms have the given total area.
pub open spec fn level_of(area: nat) -> nat {
    area / 1000 + 1
}

/// Names the biome that a letter stands for.
pub fn biome_for(letter: char) -> (name: String)
    ensures
        name@ == biome_name(letter),
{
    let name: &str = match letter {
        'a' => "Ancient Ruins",
        'b' => "Barrens",
        'c' => "Cave",
        'd' => "Desert",
        'e' => "Enchanted Forest",
        'f' => "Forest",
        'g' => "Grassland",
        'h' => "Hell",
        'i' => "Ice Cavern",
        'j' => "Jungle",
        'k' => "Kingdom Ruins",
        'l' => "Lava Pits",
        'm' => "Mountain",
        'n' => "Necropolis",
        'o' => "Ocean Depths",
        'p' => "Poison Swamp",
        'q' => "Quagmire",
        'r' => "Rainforest",
        's' => "Swamp",
        't' => "Temple",
        'u' => "Underground Tunnels",
        'v' => "Volcanic Crater",
        'w' => "Water",
        'x' => "Xeno Hive",
        'y' => "Yellow Wasteland",
        'z' => "Zephyr Highlands",
        _ => "Unknown",
    };
    name.to_owned()
}

/// Names the biome of a dungeon from the dominant letter of its token.
pub fn get_dungeon_type(most_frequent_char: &str) -> (name: String)
    ensures
        name@ == biome_of(most_frequent_char@),
{
    if most_frequent_char.unicode_len() == 1 {
        biome_for(most_frequent_char.get_char(0))
    } else {
        "Unknown".to_owned()
    }
}

/// Computes the level of a dungeon from the total area of its rooms.
pub fn get_dungeon_level(area_size: u64) -> (level: u64)
    ensures
        level == level_of(area_size as nat),
        level >= 1,
{
    (area_size / 1000) + 1
}

} // verus!
