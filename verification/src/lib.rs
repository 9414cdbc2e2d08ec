//! Conversion of Minecraft schematics (Sponge `.schem`/`.schematic` NBT and
//! Litematica regions) into Valve 220 `.map` brushes for TrenchBroom.
pub mod text;
pub mod assoc;
pub mod properties;
pub mod voxel;
pub mod block_shapes;
pub mod unpack;
pub mod parser;
pub mod litematic;
pub mod filter;
pub mod optimizer;
pub mod mesh_laws;
pub mod exporter;
pub mod numerals;
