//! Tile kinds and the bomb-neighbor tag.

use vstd::prelude::*;

verus! {

/// The kind of one board cell. Exactly one variant per cell: a bomb, a cell
/// adjacent to `count` bombs (`count > 0` once a map is initialized), or an
/// empty cell with no adjacent bomb.
#[derive(Debug, Copy, Clone, PartialEq, Eq, Structural, Hash)]
pub enum Tile {
    Bomb,
    BombNeighbor(u8),
    Empty,
}

impl Tile {
    /// Whether this tile is a bomb.
    pub open spec fn is_bomb_spec(self) -> bool {
        self is Bomb
    }

    /// Whether this tile is a bomb.
    pub fn is_bomb(self) -> (r: bool)
        ensures
            r == self.is_bomb_spec(),
    {
        match self {
            Tile::Bomb => true,
            _ => false,
        }
    }

    /// Whether this tile is empty (no bomb, no adjacent bomb).
    pub fn is_empty(self) -> (r: bool)
        ensures
            r == (self is Empty),
    {
        match self {
            Tile::Empty => true,
            _ => false,
        }
    }

    /// The bomb-neighbor tag of this tile, if it carries one.
    pub fn bomb_neighbor(self) -> (r: Option<BombNeighbor>)
        ensures
            r == match self {
                Tile::BombNeighbor(n) => Some(BombNeighbor { count: n }),
                _ => None::<BombNeighbor>,
            },
    {
        match self {
            Tile::BombNeighbor(n) => Some(BombNeighbor { count: n }),
            _ => None,
        }
    }
}

/// Tag carried by a revealed cell that is adjacent to at least one bomb.
#[derive(Debug, Copy, Clone, PartialEq, Eq, Structural, Hash)]
pub struct BombNeighbor {
    /// Number of neighbor bombs.
    pub count: u8,
}

} // verus!
