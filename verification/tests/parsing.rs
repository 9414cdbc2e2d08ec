use trenchcraft::parser::{block_from_palette_key, parse_nbt, parse_nbt_is_safe, NbtValue};
use trenchcraft::voxel::VoxelMap;

fn entry(k: &str, v: NbtValue) -> (String, NbtValue) {
    (k.to_string(), v)
}

fn schematic(w: i16, h: i32, l: i16, palette: Vec<(String, NbtValue)>, data: Vec<i8>) -> NbtValue {
    NbtValue::Compound(vec![
        entry("Width", NbtValue::Short(w)),
        entry("Height", NbtValue::Int(h)),
        entry("Length", NbtValue::Short(l)),
        entry("Palette", NbtValue::Compound(palette)),
        entry("BlockData", NbtValue::ByteArray(data)),
    ])
}

fn names(m: &VoxelMap) -> Vec<Option<String>> {
    m.blocks.iter().map(|c| c.as_ref().map(|b| b.name.clone())).collect()
}

#[test]
fn palette_key_without_properties() {
    let b = block_from_palette_key("minecraft:stone");
    assert_eq!(b.name, "minecraft:stone");
    assert_eq!(b.properties.len(), 0);
}

#[test]
fn palette_key_with_properties() {
    let b = block_from_palette_key("minecraft:oak_slab[half=top,waterlogged=false]");
    assert_eq!(b.name, "minecraft:oak_slab");
    assert_eq!(b.properties.len(), 2);
    assert_eq!(b.properties.get("half").map(|s| s.as_str()), Some("top"));
    assert_eq!(b.properties.get("waterlogged").map(|s| s.as_str()), Some("false"));
}

#[test]
fn palette_key_edge_cases() {
    let b = block_from_palette_key("x[=skip,k=,b=c=d,noeq]]");
    assert_eq!(b.name, "x");
    assert_eq!(b.properties.len(), 2);
    assert_eq!(b.properties.get("k").map(|s| s.as_str()), Some(""));
    assert_eq!(b.properties.get("b").map(|s| s.as_str()), Some("c=d"));
    assert_eq!(b.properties.get(""), None);
}

#[test]
fn palette_key_later_pair_wins_and_second_bracket_ends() {
    let b = block_from_palette_key("y[a=1,a=2[c=3]");
    assert_eq!(b.name, "y");
    assert_eq!(b.properties.len(), 1);
    assert_eq!(b.properties.get("a").map(|s| s.as_str()), Some("2"));
}

#[test]
fn parses_small_schematic() {
    let palette = vec![
        entry("minecraft:stone", NbtValue::Int(0)),
        entry("minecraft:oak_slab[half=top]", NbtValue::Int(1)),
    ];
    let data = schematic(3, 1, 1, palette, vec![1, 0, 1]);
    assert!(parse_nbt_is_safe(&data));
    let m = parse_nbt(&data).unwrap();
    assert_eq!((m.width, m.height, m.length), (3, 1, 1));
    assert_eq!(
        names(&m),
        vec![
            Some("minecraft:oak_slab".to_string()),
            Some("minecraft:stone".to_string()),
            Some("minecraft:oak_slab".to_string()),
        ]
    );
    assert_eq!(m.blocks[0].as_ref().unwrap().properties.get("half").map(|s| s.as_str()), Some("top"));
}

#[test]
fn multi_byte_varint_ids() {
    // 300 = 0b10_0101100: 0xAC 0x02
    let palette = vec![entry("minecraft:dirt", NbtValue::Int(300)), entry("minecraft:stone", NbtValue::Int(2))];
    let data = schematic(2, 1, 1, palette, vec![0xACu8 as i8, 0x02, 0x02]);
    let m = parse_nbt(&data).unwrap();
    assert_eq!(names(&m), vec![Some("minecraft:dirt".to_string()), Some("minecraft:stone".to_string())]);
}

#[test]
fn short_data_leaves_cells_empty() {
    let palette = vec![entry("minecraft:stone", NbtValue::Int(0))];
    let data = schematic(2, 2, 1, palette, vec![0, 7]);
    let m = parse_nbt(&data).unwrap();
    assert_eq!(m.blocks.len(), 4);
    assert_eq!(names(&m), vec![Some("minecraft:stone".to_string()), None, None, None]);
}

#[test]
fn missing_block_data_gives_none() {
    let data = NbtValue::Compound(vec![
        entry("Width", NbtValue::Short(1)),
        entry("Height", NbtValue::Short(1)),
        entry("Length", NbtValue::Short(1)),
    ]);
    assert!(parse_nbt(&data).is_none());
    let not_compound = NbtValue::Int(3);
    assert!(parse_nbt(&not_compound).is_none());
    let missing_width = NbtValue::Compound(vec![
        entry("Height", NbtValue::Short(1)),
        entry("Length", NbtValue::Short(1)),
        entry("BlockData", NbtValue::ByteArray(vec![0])),
    ]);
    assert!(parse_nbt(&missing_width).is_none());
}

#[test]
fn missing_palette_gives_empty_cells() {
    let data = NbtValue::Compound(vec![
        entry("Width", NbtValue::Short(1)),
        entry("Height", NbtValue::Short(1)),
        entry("Length", NbtValue::Short(1)),
        entry("BlockData", NbtValue::ByteArray(vec![0])),
    ]);
    let m = parse_nbt(&data).unwrap();
    assert_eq!(names(&m), vec![None]);
}

#[test]
fn overlong_varint_is_unsafe() {
    let data = schematic(1, 1, 1, vec![], vec![-1, -1, -1, -1, -1, 1]);
    assert!(!parse_nbt_is_safe(&data));
    let five = schematic(1, 1, 1, vec![], vec![-1, -1, -1, -1, 1]);
    assert!(parse_nbt_is_safe(&five));
}

#[test]
fn negative_or_huge_size_is_unsafe() {
    assert!(!parse_nbt_is_safe(&schematic(-1, 1, 1, vec![], vec![])));
    assert!(!parse_nbt_is_safe(&schematic(30000, 30000, 30000, vec![], vec![])));
    assert!(parse_nbt_is_safe(&schematic(0, 5, 5, vec![], vec![])));
}

#[test]
fn three_byte_varint_id() {
    // 20000 = 1 * 128^2 + 28 * 128 + 32: 0xA0 0x9C 0x01
    let palette = vec![entry("minecraft:glass", NbtValue::Int(20000)), entry("minecraft:stone", NbtValue::Int(5))];
    let data = schematic(2, 1, 1, palette, vec![0xA0u8 as i8, 0x9Cu8 as i8, 0x01, 0x05]);
    assert!(parse_nbt_is_safe(&data));
    let m = parse_nbt(&data).unwrap();
    assert_eq!(names(&m), vec![Some("minecraft:glass".to_string()), Some("minecraft:stone".to_string())]);
}

#[test]
fn palette_key_name_and_pairs() {
    let b = block_from_palette_key("minecraft:oak_stairs[facing=north,half=bottom]");
    assert_eq!(b.name, "minecraft:oak_stairs");
    assert_eq!(b.properties.len(), 2);
    assert_eq!(b.properties.get("facing").map(|s| s.as_str()), Some("north"));
    assert_eq!(b.properties.get("half").map(|s| s.as_str()), Some("bottom"));
}

#[test]
fn five_byte_varint_ids_keep_the_low_32_bits() {
    // 0x80 0x80 0x80 0x80 0x01 is 2^28; with 0x7F last, 127 * 2^28 keeps
    // its low 32 bits: -2^28.
    let palette = vec![
        entry("minecraft:a", NbtValue::Int(268435456)),
        entry("minecraft:b", NbtValue::Int(-268435456)),
    ];
    let data = schematic(
        2,
        1,
        1,
        palette,
        vec![0x80u8 as i8, 0x80u8 as i8, 0x80u8 as i8, 0x80u8 as i8, 0x01, 0x80u8 as i8, 0x80u8 as i8, 0x80u8 as i8, 0x80u8 as i8, 0x7F],
    );
    assert!(parse_nbt_is_safe(&data));
    let m = parse_nbt(&data).unwrap();
    assert_eq!(names(&m), vec![Some("minecraft:a".to_string()), Some("minecraft:b".to_string())]);
}

#[test]
fn cut_off_varint_counts_with_the_bytes_present() {
    let palette = vec![entry("minecraft:stone", NbtValue::Int(1)), entry("minecraft:dirt", NbtValue::Int(5))];
    let data = schematic(3, 1, 1, palette, vec![0x01, 0x85u8 as i8]);
    let m = parse_nbt(&data).unwrap();
    assert_eq!(names(&m), vec![Some("minecraft:stone".to_string()), Some("minecraft:dirt".to_string()), None]);
}

#[test]
fn each_cell_holds_the_block_of_its_unique_palette_key() {
    let palette = vec![
        entry("minecraft:oak_stairs[facing=east,half=top]", NbtValue::Int(7)),
        entry("minecraft:note", NbtValue::Short(7)),
        entry("minecraft:stone", NbtValue::Int(3)),
    ];
    let data = schematic(3, 1, 1, palette, vec![0x07, 0x03, 0x09]);
    let m = parse_nbt(&data).unwrap();
    let b = m.blocks[0].as_ref().unwrap();
    assert_eq!(b.name, "minecraft:oak_stairs");
    assert_eq!(b.properties.len(), 2);
    assert_eq!(b.properties.get("facing").map(|s| s.as_str()), Some("east"));
    assert_eq!(b.properties.get("half").map(|s| s.as_str()), Some("top"));
    assert_eq!(m.blocks[1].as_ref().unwrap().name, "minecraft:stone");
    assert!(m.blocks[2].is_none());
}
