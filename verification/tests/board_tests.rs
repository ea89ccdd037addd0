use board_plugin::board::Board;
use board_plugin::{Coordinates, TileMap};

fn at(x: u16, y: u16) -> Coordinates {
    Coordinates { x, y }
}

/// A board over a `w`-by-`h` map with bombs forced on `bombs`; the handle of
/// cell `(x, y)` is `y * w + x` as a `u64`.
fn make_board(w: u16, h: u16, bombs: &[Coordinates]) -> Board {
    let mut map = TileMap::empty(w, h);
    map.set_bombs_at(&bombs.to_vec());
    let total = map.total();
    let mut handles = Vec::new();
    for j in 0..total {
        handles.push(j as u64);
    }
    Board::new(map, 999, &handles)
}

fn handle_of(w: u16, c: Coordinates) -> u64 {
    (c.y as u64) * (w as u64) + c.x as u64
}

#[test]
fn tile_to_uncover_returns_covered_handle() {
    let board = make_board(2, 2, &[at(0, 0)]);
    let c = at(1, 1);
    assert_eq!(board.tile_to_uncover(&c), Some(handle_of(2, c)));
}

#[test]
fn tile_to_uncover_rejects_marked_until_unmarked() {
    let mut board = make_board(2, 2, &[at(0, 0)]);
    let c = at(1, 1);
    let h = handle_of(2, c);
    assert_eq!(board.try_toggle_mark(&c), Some((h, true)));
    assert_eq!(board.tile_to_uncover(&c), None);
    assert_eq!(board.try_toggle_mark(&c), Some((h, false)));
    assert_eq!(board.tile_to_uncover(&c), Some(h));
}

#[test]
fn try_uncover_twice_returns_some_then_none() {
    let mut board = make_board(2, 2, &[at(0, 0)]);
    let c = at(1, 0);
    assert_eq!(board.try_uncover_tile(&c), Some(handle_of(2, c)));
    assert_eq!(board.try_uncover_tile(&c), None);
}

#[test]
fn try_uncover_out_of_bounds_is_none() {
    let mut board = make_board(2, 2, &[]);
    assert_eq!(board.try_uncover_tile(&at(5, 5)), None);
}

#[test]
fn try_uncover_unmarks_first() {
    let mut board = make_board(2, 2, &[at(0, 0)]);
    let c = at(0, 1);
    let h = handle_of(2, c);
    assert_eq!(board.try_toggle_mark(&c), Some((h, true)));
    assert_eq!(board.try_uncover_tile(&c), Some(h));
    assert_eq!(board.try_toggle_mark(&c), None);
}

#[test]
fn toggle_mark_alternates_on_covered_tile() {
    let mut board = make_board(3, 3, &[at(0, 0)]);
    let c = at(2, 2);
    let h = handle_of(3, c);
    assert_eq!(board.try_toggle_mark(&c), Some((h, true)));
    assert_eq!(board.try_toggle_mark(&c), Some((h, false)));
    assert_eq!(board.try_toggle_mark(&c), Some((h, true)));
    assert_eq!(board.try_toggle_mark(&c), Some((h, false)));
}

#[test]
fn toggle_mark_on_uncovered_tile_is_none() {
    let mut board = make_board(2, 2, &[at(0, 0)]);
    let c = at(1, 1);
    assert!(board.try_uncover_tile(&c).is_some());
    assert_eq!(board.try_toggle_mark(&c), None);
}

#[test]
fn toggle_mark_out_of_bounds_is_none() {
    let mut board = make_board(2, 2, &[]);
    assert_eq!(board.try_toggle_mark(&at(9, 0)), None);
}

#[test]
fn win_on_2x2_with_one_bomb() {
    let mut board = make_board(2, 2, &[at(0, 0)]);
    assert!(!board.is_completed());
    assert!(board.try_uncover_tile(&at(1, 0)).is_some());
    assert!(!board.is_completed());
    assert!(board.try_uncover_tile(&at(0, 1)).is_some());
    assert!(!board.is_completed());
    assert!(board.try_uncover_tile(&at(1, 1)).is_some());
    assert!(board.is_completed());
}

#[test]
fn adjacent_covered_tiles_shrink_as_tiles_open() {
    let mut board = make_board(2, 2, &[]);
    let handles = board.adjacent_covered_tiles(at(0, 0));
    assert_eq!(handles, vec![handle_of(2, at(1, 0)), handle_of(2, at(0, 1)), handle_of(
        2,
        at(1, 1),
    )]);
    assert!(board.try_uncover_tile(&at(1, 0)).is_some());
    let handles = board.adjacent_covered_tiles(at(0, 0));
    assert_eq!(handles, vec![handle_of(2, at(0, 1)), handle_of(2, at(1, 1))]);
}

#[test]
fn init_board_is_empty_placeholder() {
    let board = Board::init();
    assert_eq!(board.covered_handle(at(0, 0)), None);
    assert_eq!(board.tile_to_uncover(&at(0, 0)), None);
}

#[test]
fn covered_handle_reads_without_change() {
    let board = make_board(2, 2, &[]);
    assert_eq!(board.covered_handle(at(1, 1)), Some(3));
    assert_eq!(board.covered_handle(at(2, 2)), None);
}
