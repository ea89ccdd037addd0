use board_plugin::board::Board;
use board_plugin::uncover::{trigger_event_handler, uncover_tiles, Uncover};
use board_plugin::{Coordinates, Tile, TileMap};

fn at(x: u16, y: u16) -> Coordinates {
    Coordinates { x, y }
}

fn make_board(w: u16, h: u16, bombs: &[Coordinates]) -> Board {
    let mut map = TileMap::empty(w, h);
    map.set_bombs_at(&bombs.to_vec());
    let total = map.total();
    let mut handles = Vec::new();
    for j in 0..total {
        handles.push(j as u64);
    }
    Board::new(map, 7, &handles)
}

fn handle_of(w: u16, c: Coordinates) -> u64 {
    (c.y as u64) * (w as u64) + c.x as u64
}

/// Drives reveal ticks from one trigger until the queue drains; returns all
/// revealed entries in order and whether any tick exploded.
fn drive(board: &mut Board, start: Coordinates) -> (Vec<(u64, Tile)>, bool) {
    let mut revealed = Vec::new();
    let mut exploded = false;
    let mut pending: Vec<(Coordinates, Uncover)> = Vec::new();
    if trigger_event_handler(board, start).is_some() {
        pending.push((start, Uncover));
    }
    while !pending.is_empty() {
        let out = uncover_tiles(board, &pending);
        revealed.extend(out.revealed);
        exploded = exploded || out.exploded;
        pending = out.next;
    }
    (revealed, exploded)
}

#[test]
fn trigger_skips_marked_and_uncovered_tiles() {
    let mut board = make_board(2, 2, &[at(0, 0)]);
    let c = at(1, 1);
    assert_eq!(
        trigger_event_handler(&board, c),
        Some((handle_of(2, c), Uncover))
    );
    board.try_toggle_mark(&c);
    assert_eq!(trigger_event_handler(&board, c), None);
    board.try_toggle_mark(&c);
    board.try_uncover_tile(&c);
    assert_eq!(trigger_event_handler(&board, c), None);
}

#[test]
fn one_tick_on_a_bomb_explodes() {
    let mut board = make_board(2, 2, &[at(0, 0)]);
    let pending = vec![(at(0, 0), Uncover)];
    let out = uncover_tiles(&mut board, &pending);
    assert!(out.exploded);
    assert_eq!(out.revealed, vec![(handle_of(2, at(0, 0)), Tile::Bomb)]);
    assert!(out.next.is_empty());
}

#[test]
fn one_tick_on_a_numbered_tile_does_not_propagate() {
    let mut board = make_board(3, 3, &[at(0, 0)]);
    let c = at(1, 1);
    let pending = vec![(c, Uncover)];
    let out = uncover_tiles(&mut board, &pending);
    assert!(!out.exploded);
    assert_eq!(out.revealed, vec![(handle_of(3, c), Tile::BombNeighbor(1))]);
    assert!(out.next.is_empty());
}

#[test]
fn second_tick_on_same_tile_reveals_nothing() {
    let mut board = make_board(3, 3, &[at(0, 0)]);
    let pending = vec![(at(1, 1), Uncover)];
    let first = uncover_tiles(&mut board, &pending);
    assert_eq!(first.revealed.len(), 1);
    let second = uncover_tiles(&mut board, &pending);
    assert!(second.revealed.is_empty());
    assert!(!second.exploded);
    assert!(second.next.is_empty());
}

#[test]
fn empty_tile_queues_covered_neighbors() {
    let mut board = make_board(3, 3, &[at(0, 0)]);
    let pending = vec![(at(2, 2), Uncover)];
    let out = uncover_tiles(&mut board, &pending);
    assert!(!out.exploded);
    assert_eq!(out.revealed, vec![(handle_of(3, at(2, 2)), Tile::Empty)]);
    let queued: Vec<Coordinates> = out.next.iter().map(|p| p.0).collect();
    assert_eq!(queued, vec![at(1, 1), at(2, 1), at(1, 2)]);
}

#[test]
fn flood_from_corner_clears_all_but_the_bomb() {
    let mut board = make_board(3, 3, &[at(0, 0)]);
    let (revealed, exploded) = drive(&mut board, at(2, 2));
    assert!(!exploded);
    // Every cell except the bomb was revealed exactly once.
    assert_eq!(revealed.len(), 8);
    for y in 0..3 {
        for x in 0..3 {
            let c = at(x, y);
            if c == at(0, 0) {
                assert!(board.covered_handle(c).is_some());
            } else {
                assert!(board.covered_handle(c).is_none());
            }
        }
    }
    // The flood reached the empty cells and stopped at the numbered ring
    // without touching the bomb.
    assert!(revealed.contains(&(handle_of(3, at(2, 0)), Tile::Empty)));
    assert!(revealed.contains(&(handle_of(3, at(0, 2)), Tile::Empty)));
    assert!(revealed.contains(&(handle_of(3, at(1, 0)), Tile::BombNeighbor(1))));
    assert!(revealed.contains(&(handle_of(3, at(0, 1)), Tile::BombNeighbor(1))));
    assert!(revealed.contains(&(handle_of(3, at(1, 1)), Tile::BombNeighbor(1))));
    assert!(board.is_completed());
}

#[test]
fn flood_does_not_cross_marked_tiles_on_trigger() {
    let mut board = make_board(3, 3, &[at(0, 0)]);
    board.try_toggle_mark(&at(2, 2));
    assert_eq!(trigger_event_handler(&board, at(2, 2)), None);
}

#[test]
fn flood_reveals_marked_tiles_it_reaches() {
    // A mark blocks the direct trigger, but propagation reaching the tile
    // from a neighboring empty cell unmarks and reveals it.
    let mut board = make_board(3, 3, &[at(0, 0)]);
    board.try_toggle_mark(&at(2, 1));
    let (_, exploded) = drive(&mut board, at(2, 2));
    assert!(!exploded);
    assert!(board.covered_handle(at(2, 1)).is_none());
    assert!(!board.is_marked_at(at(2, 1)));
    assert!(board.is_completed());
}

#[test]
fn full_random_board_turns_all_cells_into_bombs() {
    let mut map = TileMap::empty(2, 2);
    map.set_bombs(4);
    assert_eq!(map.bomb_count(), 4);
    for y in 0..2 {
        for x in 0..2 {
            assert_eq!(map.tile_at(at(x, y)), Tile::Bomb);
        }
    }
}
