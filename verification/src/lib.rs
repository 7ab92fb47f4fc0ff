//! Block-world rules of an isometric tile game: collision queries on a
//! layered grid, the layout of a world read from a Tiled map, the tiles of a
//! tileset and the tiles to draw, and the jump rule.
pub mod world;
pub mod layout;
pub mod json;
pub mod loader;
pub mod tiles;
pub mod player;
pub mod projectile;
