use excavator::classify::biome_for;
use excavator::classify::get_dungeon_level;
use excavator::classify::get_dungeon_type;

#[test]
fn level_counts_full_thousands() {
    assert_eq!(get_dungeon_level(0), 1);
    assert_eq!(get_dungeon_level(999), 1);
    assert_eq!(get_dungeon_level(1000), 2);
    assert_eq!(get_dungeon_level(1999), 2);
    assert_eq!(get_dungeon_level(7196), 8);
    assert_eq!(get_dungeon_level(u64::MAX), u64::MAX / 1000 + 1);
}

#[test]
fn every_letter_has_a_biome() {
    let names = [
        "Ancient Ruins", "Barrens", "Cave", "Desert", "Enchanted Forest", "Forest", "Grassland",
        "Hell", "Ice Cavern", "Jungle", "Kingdom Ruins", "Lava Pits", "Mountain", "Necropolis",
        "Ocean Depths", "Poison Swamp", "Quagmire", "Rainforest", "Swamp", "Temple",
        "Underground Tunnels", "Volcanic Crater", "Water", "Xeno Hive", "Yellow Wasteland",
        "Zephyr Highlands",
    ];
    for (letter, name) in ('a'..='z').zip(names) {
        assert_eq!(biome_for(letter), name);
        assert_eq!(get_dungeon_type(&letter.to_string()), name);
    }
}

#[test]
fn anything_else_has_the_fallback_biome() {
    assert_eq!(biome_for('A'), "Unknown");
    assert_eq!(biome_for('0'), "Unknown");
    assert_eq!(biome_for('é'), "Unknown");
    assert_eq!(get_dungeon_type(""), "Unknown");
    assert_eq!(get_dungeon_type("None"), "Unknown");
    assert_eq!(get_dungeon_type("ab"), "Unknown");
    assert_eq!(get_dungeon_type("M"), "Unknown");
    assert_eq!(get_dungeon_type("é"), "Unknown");
}
