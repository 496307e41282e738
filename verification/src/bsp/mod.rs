//! GoldSrc map data: NAV meshes, entity lumps, collision trees, mesh building
//! and WAD textures.
pub mod collision;
pub mod entity;
pub mod map;
pub mod nav;
pub mod parse;
pub mod wad;
