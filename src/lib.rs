//! Content definitions for a tile-based platform game: a compiler for the
//! small attribute-expression language attached to sprites, and the level
//! data model (sprite manifests, placement maps, their join and its inverse,
//! and the id-interned placement file form).
pub mod lex;
pub mod level;
pub mod editor;
pub mod settings;
pub mod attributes;
pub mod state;
