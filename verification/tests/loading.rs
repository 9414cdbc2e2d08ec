use std::io::Write;
use trenchcraft::litematic::{region_is_loadable, region_size_fits, LitematicRegion};
use std::collections::HashMap;
use trenchcraft::parser::{parse_nbt, parse_nbt_is_safe, NbtValue};
use trenchcraft::unpack::{load_schematic_bytes, unpack_schematic_bytes};
use trenchcraft::voxel::VoxelMap;

#[test]
fn gzip_content_is_decompressed() {
    let payload = b"\x0a\x00\x00\x00 nbt payload".to_vec();
    let mut enc = flate2::write::GzEncoder::new(Vec::new(), flate2::Compression::default());
    enc.write_all(&payload).unwrap();
    let gz = enc.finish().unwrap();
    assert_ne!(gz, payload);
    assert_eq!(unpack_schematic_bytes(&gz), payload);
}

#[test]
fn raw_content_is_kept() {
    let raw = b"\x0a\x00\x00raw nbt".to_vec();
    assert_eq!(unpack_schematic_bytes(&raw), raw);
    let empty: Vec<u8> = vec![];
    assert_eq!(unpack_schematic_bytes(&empty), empty);
}

#[test]
fn litematic_without_regions_gives_none() {
    let regions: Vec<LitematicRegion> = vec![];
    assert!(VoxelMap::from_litematic(&regions).is_none());
}

#[test]
fn litematic_first_region_is_read() {
    let regions = vec![
        LitematicRegion {
            width: 2,
            height: 1,
            length: 1,
            block_names: vec!["minecraft:stone".to_string(), "minecraft:air".to_string()],
        },
        LitematicRegion { width: 1, height: 1, length: 1, block_names: vec!["minecraft:dirt".to_string()] },
    ];
    assert!(region_is_loadable(&regions[0]));
    let m = VoxelMap::from_litematic(&regions).unwrap();
    assert_eq!((m.width, m.height, m.length), (2, 1, 1));
    let names: Vec<Option<String>> = m.blocks.iter().map(|c| c.as_ref().map(|b| b.name.clone())).collect();
    assert_eq!(names, vec![Some("minecraft:stone".to_string()), Some("minecraft:air".to_string())]);
    assert_eq!(m.blocks[0].as_ref().unwrap().properties.len(), 0);
}

#[test]
fn litematic_with_negative_size_has_empty_cells() {
    let regions = vec![LitematicRegion { width: -1, height: -2, length: 1, block_names: vec![] }];
    assert!(region_is_loadable(&regions[0]));
    let m = VoxelMap::from_litematic(&regions).unwrap();
    assert_eq!(m.blocks.len(), 2);
    assert!(m.blocks.iter().all(|c| c.is_none()));
    let bad = LitematicRegion { width: -1, height: 2, length: 1, block_names: vec![] };
    assert!(!region_is_loadable(&bad));
}

#[test]
fn region_sizes_that_overflow_do_not_fit() {
    assert!(region_size_fits(100, 100, 100));
    assert!(!region_size_fits(100_000, 100_000, 1));
    assert!(!region_size_fits(2_000, 2_000, 2_000));
    assert!(!region_size_fits(-1, 1, 1));
    assert!(region_size_fits(-1, -1, 1));
    assert!(region_size_fits(0, -5, 7));
}

/// NBT bytes of a small schematic, encoded by fastnbt.
fn schematic_nbt() -> Vec<u8> {
    let mut palette = HashMap::new();
    palette.insert("minecraft:stone".to_string(), fastnbt::Value::Int(0));
    palette.insert("minecraft:oak_slab[type=top]".to_string(), fastnbt::Value::Int(1));
    let mut root = HashMap::new();
    root.insert("Width".to_string(), fastnbt::Value::Short(2));
    root.insert("Height".to_string(), fastnbt::Value::Short(1));
    root.insert("Length".to_string(), fastnbt::Value::Int(1));
    root.insert("Version".to_string(), fastnbt::Value::Long(2));
    root.insert("Palette".to_string(), fastnbt::Value::Compound(palette));
    root.insert(
        "BlockData".to_string(),
        fastnbt::Value::ByteArray(fastnbt::ByteArray::new(vec![1, 0])),
    );
    fastnbt::to_bytes(&fastnbt::Value::Compound(root)).unwrap()
}

fn check_small_schematic(v: &NbtValue) {
    match v {
        NbtValue::Compound(entries) => {
            assert_eq!(entries.len(), 6);
            assert!(entries.iter().any(|(k, e)| k == "Version" && matches!(e, NbtValue::Other)));
            assert!(entries.iter().any(|(k, e)| k == "Width" && matches!(e, NbtValue::Short(2))));
            assert!(entries.iter().any(|(k, e)| k == "Length" && matches!(e, NbtValue::Int(1))));
        }
        _ => panic!("the root is not a compound"),
    }
    assert!(parse_nbt_is_safe(v));
    let m = parse_nbt(v).unwrap();
    assert_eq!((m.width, m.height, m.length), (2, 1, 1));
    let first = m.blocks[0].as_ref().unwrap();
    assert_eq!(first.name, "minecraft:oak_slab");
    assert_eq!(first.properties.get("type").map(|s| s.as_str()), Some("top"));
    assert_eq!(m.blocks[1].as_ref().unwrap().name, "minecraft:stone");
}

#[test]
fn raw_nbt_content_is_decoded() {
    let v = load_schematic_bytes(&schematic_nbt()).unwrap();
    check_small_schematic(&v);
}

#[test]
fn gzipped_nbt_content_is_decoded() {
    let mut enc = flate2::write::GzEncoder::new(Vec::new(), flate2::Compression::default());
    enc.write_all(&schematic_nbt()).unwrap();
    let v = load_schematic_bytes(&enc.finish().unwrap()).unwrap();
    check_small_schematic(&v);
}

#[test]
fn content_that_is_not_nbt_gives_none() {
    assert!(load_schematic_bytes(b"not nbt at all").is_none());
    assert!(load_schematic_bytes(&[]).is_none());
    let mut truncated = schematic_nbt();
    truncated.truncate(10);
    assert!(load_schematic_bytes(&truncated).is_none());
}
