use board_plugin::{Coordinates, Tile, TileMap};

fn at(x: u16, y: u16) -> Coordinates {
    Coordinates { x, y }
}

/// The neighbor bomb count of a cell, recomputed by brute force.
fn brute_force_count(map: &TileMap, x: u16, y: u16) -> u8 {
    let mut n: u8 = 0;
    for dy in -1i32..=1 {
        for dx in -1i32..=1 {
            if dx == 0 && dy == 0 {
                continue;
            }
            let nx = x as i32 + dx;
            let ny = y as i32 + dy;
            if nx >= 0
                && ny >= 0
                && nx < map.width() as i32
                && ny < map.height() as i32
                && map.tile_at(at(nx as u16, ny as u16)) == Tile::Bomb
            {
                n += 1;
            }
        }
    }
    n
}

/// Every non-bomb cell must carry exactly its brute-force neighbor count.
fn check_consistency(map: &TileMap) {
    for y in 0..map.height() {
        for x in 0..map.width() {
            let tile = map.tile_at(at(x, y));
            if tile == Tile::Bomb {
                continue;
            }
            let n = brute_force_count(map, x, y);
            if n > 0 {
                assert_eq!(tile, Tile::BombNeighbor(n));
            } else {
                assert_eq!(tile, Tile::Empty);
            }
        }
    }
}

#[test]
fn empty_map_is_blank() {
    let map = TileMap::empty(4, 3);
    assert_eq!(map.width(), 4);
    assert_eq!(map.height(), 3);
    assert_eq!(map.total(), 12);
    assert_eq!(map.bomb_count(), 0);
    for y in 0..3 {
        for x in 0..4 {
            assert_eq!(map.tile_at(at(x, y)), Tile::Empty);
        }
    }
}

#[test]
fn zero_by_zero_map_is_legal() {
    let map = TileMap::empty(0, 0);
    assert_eq!(map.total(), 0);
    assert_eq!(map.bomb_count(), 0);
}

#[test]
fn try_tile_at_rejects_off_grid() {
    let map = TileMap::empty(2, 2);
    assert_eq!(map.try_tile_at(at(1, 1)), Some(Tile::Empty));
    assert_eq!(map.try_tile_at(at(2, 0)), None);
    assert_eq!(map.try_tile_at(at(0, 2)), None);
}

#[test]
fn forced_bomb_gives_neighbor_counts() {
    let mut map = TileMap::empty(3, 3);
    map.set_bombs_at(&vec![at(0, 0)]);
    assert_eq!(map.bomb_count(), 1);
    assert_eq!(map.tile_at(at(0, 0)), Tile::Bomb);
    assert_eq!(map.tile_at(at(1, 0)), Tile::BombNeighbor(1));
    assert_eq!(map.tile_at(at(0, 1)), Tile::BombNeighbor(1));
    assert_eq!(map.tile_at(at(1, 1)), Tile::BombNeighbor(1));
    assert_eq!(map.tile_at(at(2, 0)), Tile::Empty);
    assert_eq!(map.tile_at(at(2, 1)), Tile::Empty);
    assert_eq!(map.tile_at(at(0, 2)), Tile::Empty);
    assert_eq!(map.tile_at(at(1, 2)), Tile::Empty);
    assert_eq!(map.tile_at(at(2, 2)), Tile::Empty);
}

#[test]
fn forced_bombs_diagonal_counts() {
    let mut map = TileMap::empty(2, 2);
    map.set_bombs_at(&vec![at(0, 0), at(1, 1)]);
    assert_eq!(map.bomb_count(), 2);
    assert_eq!(map.tile_at(at(1, 0)), Tile::BombNeighbor(2));
    assert_eq!(map.tile_at(at(0, 1)), Tile::BombNeighbor(2));
    check_consistency(&map);
}

#[test]
fn random_bombs_have_exact_count_and_counts_check_out() {
    let mut map = TileMap::empty(4, 4);
    map.set_bombs(5);
    assert_eq!(map.bomb_count(), 5);
    let mut bombs = 0;
    for y in 0..4 {
        for x in 0..4 {
            if map.tile_at(at(x, y)) == Tile::Bomb {
                bombs += 1;
            }
        }
    }
    assert_eq!(bombs, 5);
    check_consistency(&map);
}

#[test]
fn bomb_count_clamps_to_capacity() {
    let mut map = TileMap::empty(2, 2);
    map.set_bombs(10);
    assert_eq!(map.bomb_count(), 4);
    for y in 0..2 {
        for x in 0..2 {
            assert_eq!(map.tile_at(at(x, y)), Tile::Bomb);
        }
    }
}

#[test]
fn zero_bombs_leave_map_blank() {
    let mut map = TileMap::empty(3, 2);
    map.set_bombs(0);
    assert_eq!(map.bomb_count(), 0);
    check_consistency(&map);
}

#[test]
fn seeded_bombs_are_reproducible() {
    let mut first = TileMap::empty(5, 5);
    first.set_bombs_seeded(6, 42);
    let mut second = TileMap::empty(5, 5);
    second.set_bombs_seeded(6, 42);
    assert_eq!(first.bomb_count(), 6);
    for y in 0..5 {
        for x in 0..5 {
            assert_eq!(first.tile_at(at(x, y)), second.tile_at(at(x, y)));
        }
    }
    check_consistency(&first);
}

#[test]
fn safe_square_never_leaves_grid_or_returns_center() {
    let map = TileMap::empty(3, 3);
    for y in 0..3 {
        for x in 0..3 {
            let center = at(x, y);
            let neighbors = map.safe_square_at(center);
            assert!(neighbors.len() <= 8);
            for n in &neighbors {
                assert!(n.x < 3 && n.y < 3);
                assert_ne!(*n, center);
            }
        }
    }
}

#[test]
fn safe_square_counts_match_geometry() {
    let map = TileMap::empty(3, 3);
    assert_eq!(map.safe_square_at(at(0, 0)).len(), 3);
    assert_eq!(map.safe_square_at(at(2, 0)).len(), 3);
    assert_eq!(map.safe_square_at(at(0, 2)).len(), 3);
    assert_eq!(map.safe_square_at(at(2, 2)).len(), 3);
    assert_eq!(map.safe_square_at(at(1, 0)).len(), 5);
    assert_eq!(map.safe_square_at(at(0, 1)).len(), 5);
    assert_eq!(map.safe_square_at(at(2, 1)).len(), 5);
    assert_eq!(map.safe_square_at(at(1, 2)).len(), 5);
    assert_eq!(map.safe_square_at(at(1, 1)).len(), 8);
}

#[test]
fn safe_square_order_is_row_major() {
    let map = TileMap::empty(3, 3);
    let neighbors = map.safe_square_at(at(1, 1));
    let expected = vec![
        at(0, 0),
        at(1, 0),
        at(2, 0),
        at(0, 1),
        at(2, 1),
        at(0, 2),
        at(1, 2),
        at(2, 2),
    ];
    assert_eq!(neighbors, expected);
}

#[test]
fn safe_square_on_one_cell_map_is_empty() {
    let map = TileMap::empty(1, 1);
    assert_eq!(map.safe_square_at(at(0, 0)).len(), 0);
}
