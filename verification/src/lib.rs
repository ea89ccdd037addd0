//! Board logic for a Minesweeper game: mine-field generation, adjacency
//! counting, reveal propagation, flagging, and win detection.
//!
//! The library owns the grid of tiles (`TileMap`), the runtime reveal/flag
//! state layered over it (`Board`), and the per-tick flood-fill engine.
//! Presentation concerns (rendering, windowing, pointer handling) live
//! outside; the library only stores opaque per-tile handles for them.

pub mod board;
pub mod coordinates;
mod rng;
pub mod tile;
pub mod tile_map;
pub mod uncover;

pub use board::Board;
pub use coordinates::Coordinates;
pub use tile::BombNeighbor;
pub use tile::Tile;
pub use tile_map::TileMap;
pub use uncover::Uncover;
