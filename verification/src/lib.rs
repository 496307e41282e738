//! Verified core of the GoldSrc map flythrough: binary NAV parsing, entity-lump
//! text parsing, BSP collision traversal, mesh index construction, texture atlas
//! packing, command-line parsing and the map compatibility ledger.
pub mod bsp;
pub mod capture;
pub mod cli;
pub mod config;
pub mod maplist;
pub mod recording;
pub mod text;
