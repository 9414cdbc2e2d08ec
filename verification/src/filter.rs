//! Culling of empty cells and assignment of texture paths.
use vstd::prelude::*;
use vstd::string::*;
use crate::text::{has_substring, occurs_at, replace_all, text_eq, replace};
use crate::voxel::{Block, BlockView, VoxelMap, cell_view};

verus! {

/// The names of the air blocks and of the structure void.
pub open spec fn is_void_name(name: Seq<char>) -> bool {
    ||| name == "minecraft:air"@
    ||| name == "minecraft:cave_air"@
    ||| name == "minecraft:void_air"@
    ||| name == "minecraft:structure_void"@
}

/// A cell that produces no geometry: no block, or an air block or the
/// structure void.
pub open spec fn is_void_cell(c: Option<BlockView>) -> bool {
    match c {
        None => true,
        Some(b) => is_void_name(b.name),
    }
}

/// The texture path for a block name: `textures/` followed by the name with
/// each `minecraft:` turned into `minecraft/`.
pub open spec fn texture_path(name: Seq<char>) -> Seq<char> {
    "textures/"@ + replace_all(name, "minecraft:"@, "minecraft/"@)
}

/// A cell after filtering: void cells become empty, other blocks keep their
/// properties and are renamed to their texture path.
pub open spec fn filtered_cell(c: Option<BlockView>) -> Option<BlockView> {
    if is_void_cell(c) {
        None
    } else {
        Some(BlockView { name: texture_path(c.unwrap().name), properties: c.unwrap().properties })
    }
}

/// Only air and the structure void are culled: an empty cell stays empty;
/// a block is emptied exactly when it is `minecraft:air`,
/// `minecraft:cave_air`, `minecraft:void_air` or `minecraft:structure_void`
/// (so only names holding `air` and the structure void ever are); every
/// other block is kept with its properties and renamed `textures/` followed
/// by its name with each `minecraft:` turned into `minecraft/`.
pub proof fn law_only_air_and_structure_void_are_culled(c: Option<BlockView>)
    ensures
        c is None ==> filtered_cell(c) is None,
        c is Some ==> ((filtered_cell(c) is None) <==> (c.unwrap().name == "minecraft:air"@
            || c.unwrap().name == "minecraft:cave_air"@ || c.unwrap().name == "minecraft:void_air"@
            || c.unwrap().name == "minecraft:structure_void"@)),
        c is Some && filtered_cell(c) is None ==> has_substring(c.unwrap().name, "air"@)
            || c.unwrap().name == "minecraft:structure_void"@,
        c is Some && filtered_cell(c) is Some ==> filtered_cell(c) == Some(
            BlockView {
                name: "textures/"@ + replace_all(c.unwrap().name, "minecraft:"@, "minecraft/"@),
                properties: c.unwrap().properties,
            },
        ),
{
    reveal_strlit("minecraft:air");
    reveal_strlit("minecraft:cave_air");
    reveal_strlit("minecraft:void_air");
    reveal_strlit("air");
    if let Some(b) = c {
        if b.name == "minecraft:air"@ {
            assert(b.name.subrange(10, 13) =~= "air"@);
            assert(occurs_at(b.name, "air"@, 10));
        } else if b.name == "minecraft:cave_air"@ {
            assert(b.name.subrange(15, 18) =~= "air"@);
            assert(occurs_at(b.name, "air"@, 15));
        } else if b.name == "minecraft:void_air"@ {
            assert(b.name.subrange(15, 18) =~= "air"@);
            assert(occurs_at(b.name, "air"@, 15));
        }
    }
}

/// Empties the void cells of `map` and renames every remaining block to its
/// texture path; the dimensions are unchanged.
pub fn filter_blocks(map: VoxelMap) -> (r: VoxelMap)
    ensures
        r.width == map.width,
        r.height == map.height,
        r.length == map.length,
        r@.blocks == map@.blocks.map_values(|c: Option<BlockView>| filtered_cell(c)),
        r@.blocks.len() == map@.blocks.len(),
        forall|i: int|
            0 <= i < map@.blocks.len() ==> ((#[trigger] r@.blocks[i]) is None <==> is_void_cell(
                map@.blocks[i],
            )),
        forall|i: int|
            0 <= i < map@.blocks.len() && map@.blocks[i] is Some ==> ((#[trigger] r@.blocks[i] is None)
                <==> (map@.blocks[i].unwrap().name == "minecraft:air"@ || map@.blocks[i].unwrap().name
                == "minecraft:cave_air"@ || map@.blocks[i].unwrap().name == "minecraft:void_air"@
                || map@.blocks[i].unwrap().name == "minecraft:structure_void"@)),
{
    let VoxelMap { width, height, length, blocks } = map;
    let mut out: Vec<Option<Block>> = Vec::new();
    let mut i: usize = 0;
    proof {
        reveal_strlit("minecraft:");
    }
    while i < blocks.len()
        invariant
            i <= blocks.len(),
            "minecraft:"@.len() > 0,
            out@.len() == i,
            forall|j: int|
                0 <= j < i ==> cell_view(#[trigger] out@[j]) == filtered_cell(cell_view(blocks@[j])),
        decreases blocks.len() - i,
    {
        let cell = match &blocks[i] {
            None => None,
            Some(b) => {
                let name = b.name.as_str();
                if text_eq(name, "minecraft:air") || text_eq(name, "minecraft:cave_air") || text_eq(
                    name,
                    "minecraft:void_air",
                ) || text_eq(name, "minecraft:structure_void") {
                    None
                } else {
                    let cleaned = replace(name, "minecraft:", "minecraft/");
                    let mut path = String::from_str("textures/");
                    path.append(cleaned.as_str());
                    Some(Block { name: path, properties: b.properties.clone() })
                }
            },
        };
        out.push(cell);
        i = i + 1;
    }
    let r = VoxelMap { width, height, length, blocks: out };
    proof {
        assert forall|i: int| 0 <= i < blocks@.len() implies #[trigger] r@.blocks[i] == filtered_cell(
            cell_view(blocks@[i]),
        ) by {
            law_only_air_and_structure_void_are_culled(cell_view(blocks@[i]));
        }
        assert forall|c: Option<BlockView>| c is Some implies ((#[trigger] filtered_cell(c)) is None <==> (
        c.unwrap().name == "minecraft:air"@ || c.unwrap().name == "minecraft:cave_air"@ || c.unwrap().name
            == "minecraft:void_air"@ || c.unwrap().name == "minecraft:structure_void"@)) by {
            law_only_air_and_structure_void_are_culled(c);
        }
    }
    assert(r@.blocks =~= blocks@.map_values(|c: Option<Block>| cell_view(c)).map_values(
        |c: Option<BlockView>| filtered_cell(c),
    ));
    r
}

} // verus!
