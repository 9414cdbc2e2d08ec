use trenchcraft::text::{contains, ends_with, replace, text_eq};

#[test]
fn replace_is_left_to_right_and_non_overlapping() {
    assert_eq!(replace("aaa", "aa", "X"), "Xa");
    assert_eq!(replace("minecraft:a minecraft:b", "minecraft:", "minecraft/"), "minecraft/a minecraft/b");
    assert_eq!(replace("none here", "minecraft:", "minecraft/"), "none here");
    assert_eq!(replace("", "x", "y"), "");
    assert_eq!(replace("ünïcode:é", ":", "/"), "ünïcode/é");
    assert_eq!("aaa".replace("aa", "X"), replace("aaa", "aa", "X"));
}

#[test]
fn substring_and_suffix_tests() {
    assert!(contains("minecraft:oak_stairs", "air"));
    assert!(!contains("minecraft:stone", "air"));
    assert!(contains("abc", ""));
    assert!(!contains("ai", "air"));
    assert!(ends_with("minecraft:oak_slab", "_slab"));
    assert!(ends_with("_slab", "_slab"));
    assert!(!ends_with("slab", "_slab"));
    assert!(!ends_with("minecraft:oak_slabs", "_slab"));
}

#[test]
fn text_equality() {
    assert!(text_eq("top", "top"));
    assert!(!text_eq("top", "to"));
    assert!(!text_eq("top", "Top"));
    assert!(text_eq("", ""));
}
