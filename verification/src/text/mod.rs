//! The caching of rasterized glyphs in growable atlases.
pub mod packing;
pub mod atlas;
pub mod key;
