//! A chunked voxel world: block storage with per-section palettes, terrain
//! filling from height and biome data, greedy face meshing, the
//! bookkeeping that streams chunks in and out around a viewer, and the
//! storing of chunks in region files.

pub mod constants;
pub mod block;
pub mod chunk;
pub mod window;
pub mod quad;
pub mod greedy;
pub mod mesher;
pub mod mesh_laws;
pub mod geometry;
pub mod biome;
pub mod biome_map;
pub mod height_map;
pub mod terrain;
pub mod world;
pub mod streaming;
pub mod region;
pub mod chunk_mesh;
pub mod texture;
pub mod nbt;
pub mod region_file;
pub mod island;
