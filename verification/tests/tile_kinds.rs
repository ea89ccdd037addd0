use board_plugin::{BombNeighbor, Tile};

#[test]
fn tile_kind_predicates() {
    assert!(Tile::Bomb.is_bomb());
    assert!(!Tile::Empty.is_bomb());
    assert!(!Tile::BombNeighbor(2).is_bomb());
    assert!(Tile::Empty.is_empty());
    assert!(!Tile::Bomb.is_empty());
    assert!(!Tile::BombNeighbor(1).is_empty());
}

#[test]
fn bomb_neighbor_tag_carries_count() {
    assert_eq!(
        Tile::BombNeighbor(3).bomb_neighbor(),
        Some(BombNeighbor { count: 3 })
    );
    assert_eq!(Tile::Bomb.bomb_neighbor(), None);
    assert_eq!(Tile::Empty.bomb_neighbor(), None);
}
