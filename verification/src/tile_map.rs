//! The mine field: a grid of tiles, bomb placement and adjacency counts.

use vstd::prelude::*;

use crate::coordinates::Coordinates;
use crate::rng::random_below;
use crate::tile::Tile;

verus! {

/// 1 for a bomb tile, 0 for any other.
pub open spec fn bomb_tile_ind(t: Tile) -> int {
    if t is Bomb {
        1
    } else {
        0
    }
}

/// How many tiles of a row-major tile sequence are bombs.
pub open spec fn count_bombs(s: Seq<Tile>) -> int
    decreases s.len(),
{
    if s.len() == 0 {
        0
    } else {
        count_bombs(s.drop_last()) + bomb_tile_ind(s.last())
    }
}

/// Whether one of the first `k` entries of `cells` equals `j`.
pub open spec fn index_placed(cells: Seq<usize>, k: int, j: int) -> bool {
    exists|i: int| 0 <= i < k && cells[i] == j
}

proof fn lemma_count_bombs_push(s: Seq<Tile>, t: Tile)
    ensures
        count_bombs(s.push(t)) == count_bombs(s) + bomb_tile_ind(t),
{
    assert(s.push(t).drop_last() =~= s);
}

proof fn lemma_count_bombs_none(s: Seq<Tile>)
    requires
        forall|j: int| 0 <= j < s.len() ==> !((#[trigger] s[j]) is Bomb),
    ensures
        count_bombs(s) == 0,
    decreases s.len(),
{
    if s.len() > 0 {
        lemma_count_bombs_none(s.drop_last());
    }
}

proof fn lemma_count_bombs_le_len(s: Seq<Tile>)
    ensures
        0 <= count_bombs(s) <= s.len(),
    decreases s.len(),
{
    if s.len() > 0 {
        lemma_count_bombs_le_len(s.drop_last());
    }
}

proof fn lemma_count_bombs_update(s: Seq<Tile>, i: int, t: Tile)
    requires
        0 <= i < s.len(),
    ensures
        count_bombs(s.update(i, t)) == count_bombs(s) - bomb_tile_ind(s[i]) + bomb_tile_ind(t),
    decreases s.len(),
{
    if i == s.len() - 1 {
        assert(s.update(i, t).drop_last() =~= s.drop_last());
    } else {
        assert(s.update(i, t).drop_last() =~= s.drop_last().update(i, t));
        lemma_count_bombs_update(s.drop_last(), i, t);
    }
}

/// A 2D grid of width `width` and height `height`, one `Tile` per cell,
/// stored row-major (cell `(x, y)` at index `y * width + x`).
#[derive(Debug)]
pub struct TileMap {
    pub width: u16,
    pub height: u16,
    pub bomb_count: u32,
    pub tiles: Vec<Tile>,
}

impl TileMap {
    /// Number of cells of the grid.
    pub open spec fn total_spec(self) -> int {
        self.width * self.height
    }

    /// Row-major index of a cell.
    pub open spec fn cell(self, c: Coordinates) -> int {
        c.y * self.width + c.x
    }

    /// Whether a coordinate lies on the grid.
    pub open spec fn in_bounds(self, c: Coordinates) -> bool {
        c.x < self.width && c.y < self.height
    }

    /// The tile stored at an on-grid coordinate.
    pub open spec fn tile_of(self, c: Coordinates) -> Tile {
        self.tiles@[self.cell(c)]
    }

    /// Whether an arbitrary coordinate is an on-grid bomb cell.
    pub open spec fn bomb_at(self, c: Coordinates) -> bool {
        self.in_bounds(c) && self.tile_of(c) is Bomb
    }

    /// Total number of bomb tiles on the grid.
    pub open spec fn bombs(self) -> int {
        count_bombs(self.tiles@)
    }

    /// 1 if `(x, y)` is an on-grid bomb cell, 0 otherwise; takes unbounded
    /// integers so that off-grid neighbor offsets simply contribute 0.
    pub open spec fn bomb_ind(self, x: int, y: int) -> int {
        if 0 <= x < self.width && 0 <= y < self.height && self.tiles@[y * self.width + x]
            is Bomb {
            1
        } else {
            0
        }
    }

    /// Number of bombs among the up-to-8 Chebyshev-distance-1 neighbors of
    /// `(x, y)`.
    pub open spec fn adjacent_bombs(self, x: int, y: int) -> int {
        self.bomb_ind(x - 1, y - 1) + self.bomb_ind(x, y - 1) + self.bomb_ind(x + 1, y - 1)
            + self.bomb_ind(x - 1, y) + self.bomb_ind(x + 1, y) + self.bomb_ind(x - 1, y + 1)
            + self.bomb_ind(x, y + 1) + self.bomb_ind(x + 1, y + 1)
    }

    /// What a non-bomb cell must hold once bombs are placed: its neighbor
    /// bomb count when positive, `Empty` otherwise.
    pub open spec fn expected_tile(self, c: Coordinates) -> Tile {
        let n = self.adjacent_bombs(c.x as int, c.y as int);
        if n > 0 {
            Tile::BombNeighbor(n as u8)
        } else {
            Tile::Empty
        }
    }

    /// Every non-bomb cell carries exactly its neighbor bomb count.
    pub open spec fn counts_consistent(self) -> bool {
        forall|c: Coordinates|
            self.in_bounds(c) && !(#[trigger] self.tile_of(c) is Bomb) ==> self.tile_of(c)
                == self.expected_tile(c)
    }

    /// The grid holds one tile per cell and the stored bomb total is right.
    pub open spec fn wf(self) -> bool {
        &&& self.tiles@.len() == self.total_spec()
        &&& self.bomb_count == self.bombs()
    }

    /// No bomb has been placed yet: every cell is `Empty`.
    pub open spec fn is_blank(self) -> bool {
        forall|j: int| 0 <= j < self.tiles@.len() ==> self.tiles@[j] == Tile::Empty
    }

    /// The cell count of a grid with `u16` sides fits comfortably below
    /// `u32::MAX`, hence in `usize`.
    proof fn lemma_total_fits(w: int, h: int)
        requires
            0 <= w <= u16::MAX,
            0 <= h <= u16::MAX,
        ensures
            0 <= w * h <= 0xfffe0001,
    {
        assert(0 <= w * h <= 0xfffe0001) by (nonlinear_arith)
            requires
                0 <= w <= u16::MAX,
                0 <= h <= u16::MAX,
        ;
    }

    /// A cell's row-major index lies below the cell count.
    pub proof fn lemma_cell_in_range(self, c: Coordinates)
        requires
            self.in_bounds(c),
        ensures
            0 <= self.cell(c) < self.total_spec(),
            0 <= c.y * self.width <= self.cell(c),
    {
        Self::lemma_cell_arith(c.x as int, c.y as int, self.width as int, self.height as int);
    }

    proof fn lemma_cell_arith(x: int, y: int, w: int, h: int)
        requires
            0 <= x < w,
            0 <= y < h,
        ensures
            0 <= y * w <= y * w + x < w * h,
    {
        assert(0 <= y * w <= y * w + x < w * h) by (nonlinear_arith)
            requires
                0 <= x < w,
                0 <= y < h,
        ;
    }

    /// Distinct on-grid coordinates have distinct row-major indices.
    pub proof fn lemma_cell_injective(self, a: Coordinates, b: Coordinates)
        requires
            self.in_bounds(a),
            self.in_bounds(b),
            self.cell(a) == self.cell(b),
        ensures
            a == b,
    {
        Self::lemma_cell_inj_arith(
            a.x as int,
            a.y as int,
            b.x as int,
            b.y as int,
            self.width as int,
        );
    }

    proof fn lemma_cell_inj_arith(x1: int, y1: int, x2: int, y2: int, w: int)
        requires
            0 <= x1 < w,
            0 <= x2 < w,
            y1 * w + x1 == y2 * w + x2,
        ensures
            x1 == x2 && y1 == y2,
    {
        assert(x1 == x2 && y1 == y2) by (nonlinear_arith)
            requires
                0 <= x1 < w,
                0 <= x2 < w,
                y1 * w + x1 == y2 * w + x2,
        ;
    }

    /// Builds a grid of `Empty` tiles of the given dimensions. A 0-by-0 map
    /// is legal and empty.
    pub fn empty(width: u16, height: u16) -> (r: TileMap)
        ensures
            r.width == width,
            r.height == height,
            r.wf(),
            r.is_blank(),
            r.bombs() == 0,
            r.counts_consistent(),
    {
        proof {
            Self::lemma_total_fits(width as int, height as int);
        }
        let total: usize = (width as usize) * (height as usize);
        let mut tiles: Vec<Tile> = Vec::new();
        let mut j: usize = 0;
        while j < total
            invariant
                j <= total,
                tiles@.len() == j,
                forall|i: int| 0 <= i < j ==> tiles@[i] == Tile::Empty,
                count_bombs(tiles@) == 0,
            decreases total - j,
        {
            proof {
                lemma_count_bombs_push(tiles@, Tile::Empty);
            }
            tiles.push(Tile::Empty);
            j += 1;
        }
        let r = TileMap { width, height, bomb_count: 0, tiles };
        proof {
            r.lemma_blank_consistent();
        }
        r
    }

    /// A grid without bombs is consistent: every cell's neighbor count is 0.
    proof fn lemma_blank_consistent(self)
        requires
            self.tiles@.len() == self.total_spec(),
            forall|j: int| 0 <= j < self.tiles@.len() ==> self.tiles@[j] == Tile::Empty,
        ensures
            self.counts_consistent(),
    {
        assert forall|x: int, y: int| #[trigger] self.bomb_ind(x, y) == 0 by {
            if 0 <= x < self.width && 0 <= y < self.height {
                Self::lemma_cell_arith(x, y, self.width as int, self.height as int);
            }
        }
        assert forall|c: Coordinates|
            self.in_bounds(c) && !(#[trigger] self.tile_of(c) is Bomb) implies self.tile_of(c)
            == self.expected_tile(c) by {
            self.lemma_cell_in_range(c);
            assert(self.adjacent_bombs(c.x as int, c.y as int) == 0);
        }
    }

    /// The grid width.
    pub fn width(&self) -> (r: u16)
        ensures
            r == self.width,
    {
        self.width
    }

    /// The grid height.
    pub fn height(&self) -> (r: u16)
        ensures
            r == self.height,
    {
        self.height
    }

    /// The number of cells of the grid.
    pub fn total(&self) -> (r: usize)
        ensures
            r == self.total_spec(),
    {
        proof {
            Self::lemma_total_fits(self.width as int, self.height as int);
        }
        (self.width as usize) * (self.height as usize)
    }

    /// Whether a coordinate lies on the grid.
    pub fn is_in_bounds(&self, c: Coordinates) -> (r: bool)
        ensures
            r == self.in_bounds(c),
    {
        c.x < self.width && c.y < self.height
    }

    pub(crate) fn cell_index(&self, c: Coordinates) -> (r: usize)
        requires
            self.in_bounds(c),
        ensures
            r == self.cell(c),
            r < self.total_spec(),
    {
        proof {
            self.lemma_cell_in_range(c);
            Self::lemma_total_fits(self.width as int, self.height as int);
        }
        (c.y as usize) * (self.width as usize) + (c.x as usize)
    }

    /// The stored total number of bomb tiles.
    pub fn bomb_count(&self) -> (r: u32)
        requires
            self.wf(),
        ensures
            r == self.bombs(),
    {
        self.bomb_count
    }

    /// Read-only access to the tile at an on-grid coordinate.
    pub fn tile_at(&self, c: Coordinates) -> (r: Tile)
        requires
            self.wf(),
            self.in_bounds(c),
        ensures
            r == self.tile_of(c),
    {
        let idx = self.cell_index(c);
        self.tiles[idx]
    }

    /// Read-only access that rejects an off-grid coordinate instead of
    /// failing: `None` stands for the out-of-bounds case.
    pub fn try_tile_at(&self, c: Coordinates) -> (r: Option<Tile>)
        requires
            self.wf(),
        ensures
            r == if self.in_bounds(c) {
                Some(self.tile_of(c))
            } else {
                None::<Tile>
            },
    {
        if self.is_in_bounds(c) {
            Some(self.tile_at(c))
        } else {
            None
        }
    }

    /// The singleton `(x, y)` when that cell is on the grid, else nothing.
    /// The pieces of the neighbor list are built from these.
    pub open spec fn opt_coord(self, x: int, y: int) -> Seq<Coordinates> {
        if 0 <= x < self.width && 0 <= y < self.height {
            seq![Coordinates { x: x as u16, y: y as u16 }]
        } else {
            Seq::<Coordinates>::empty()
        }
    }

    /// The on-grid Chebyshev-distance-1 neighbors of `c`, in row-major
    /// offset order. `c` itself is never among them.
    pub open spec fn spec_neighbors(self, c: Coordinates) -> Seq<Coordinates> {
        let x = c.x as int;
        let y = c.y as int;
        self.opt_coord(x - 1, y - 1) + self.opt_coord(x, y - 1) + self.opt_coord(x + 1, y - 1)
            + self.opt_coord(x - 1, y) + self.opt_coord(x + 1, y) + self.opt_coord(x - 1, y + 1)
            + self.opt_coord(x, y + 1) + self.opt_coord(x + 1, y + 1)
    }

    /// The finite list of the up-to-8 valid neighboring coordinates of `c`:
    /// off-grid positions are excluded, and so is `c` itself. The order is
    /// the row-major offset scan, deterministic for reproducibility.
    pub fn safe_square_at(&self, c: Coordinates) -> (r: Vec<Coordinates>)
        ensures
            r@ == self.spec_neighbors(c),
            r@.len() <= 8,
            forall|i: int|
                0 <= i < r@.len() ==> self.in_bounds(#[trigger] r@[i]) && r@[i] != c,
    {
        let ghost x = c.x as int;
        let ghost y = c.y as int;
        let w = self.width;
        let h = self.height;
        let xm_ok = c.x >= 1 && c.x - 1 < w;
        let x0_ok = c.x < w;
        let xp_ok = (c.x as u32) + 1 < (w as u32);
        let ym_ok = c.y >= 1 && c.y - 1 < h;
        let y0_ok = c.y < h;
        let yp_ok = (c.y as u32) + 1 < (h as u32);
        let mut r: Vec<Coordinates> = Vec::new();
        if ym_ok && xm_ok {
            r.push(Coordinates { x: c.x - 1, y: c.y - 1 });
        }
        proof {
            assert(r@ =~= self.opt_coord(x - 1, y - 1));
        }
        if ym_ok && x0_ok {
            r.push(Coordinates { x: c.x, y: c.y - 1 });
        }
        proof {
            assert(r@ =~= self.opt_coord(x - 1, y - 1) + self.opt_coord(x, y - 1));
        }
        if ym_ok && xp_ok {
            r.push(Coordinates { x: c.x + 1, y: c.y - 1 });
        }
        proof {
            assert(r@ =~= self.opt_coord(x - 1, y - 1) + self.opt_coord(x, y - 1)
                + self.opt_coord(x + 1, y - 1));
        }
        if y0_ok && xm_ok {
            r.push(Coordinates { x: c.x - 1, y: c.y });
        }
        proof {
            assert(r@ =~= self.opt_coord(x - 1, y - 1) + self.opt_coord(x, y - 1)
                + self.opt_coord(x + 1, y - 1) + self.opt_coord(x - 1, y));
        }
        if y0_ok && xp_ok {
            r.push(Coordinates { x: c.x + 1, y: c.y });
        }
        proof {
            assert(r@ =~= self.opt_coord(x - 1, y - 1) + self.opt_coord(x, y - 1)
                + self.opt_coord(x + 1, y - 1) + self.opt_coord(x - 1, y) + self.opt_coord(
                x + 1,
                y,
            ));
        }
        if yp_ok && xm_ok {
            r.push(Coordinates { x: c.x - 1, y: c.y + 1 });
        }
        proof {
            assert(r@ =~= self.opt_coord(x - 1, y - 1) + self.opt_coord(x, y - 1)
                + self.opt_coord(x + 1, y - 1) + self.opt_coord(x - 1, y) + self.opt_coord(
                x + 1,
                y,
            ) + self.opt_coord(x - 1, y + 1));
        }
        if yp_ok && x0_ok {
            r.push(Coordinates { x: c.x, y: c.y + 1 });
        }
        proof {
            assert(r@ =~= self.opt_coord(x - 1, y - 1) + self.opt_coord(x, y - 1)
                + self.opt_coord(x + 1, y - 1) + self.opt_coord(x - 1, y) + self.opt_coord(
                x + 1,
                y,
            ) + self.opt_coord(x - 1, y + 1) + self.opt_coord(x, y + 1));
        }
        if yp_ok && xp_ok {
            r.push(Coordinates { x: c.x + 1, y: c.y + 1 });
        }
        proof {
            assert(r@ =~= self.spec_neighbors(c));
            self.lemma_neighbors_props(c);
        }
        r
    }

    /// Every listed neighbor is on the grid and differs from the center;
    /// there are at most 8 of them.
    pub proof fn lemma_neighbors_props(self, c: Coordinates)
        ensures
            self.spec_neighbors(c).len() <= 8,
            forall|i: int|
                0 <= i < self.spec_neighbors(c).len() ==> self.in_bounds(
                    #[trigger] self.spec_neighbors(c)[i],
                ) && self.spec_neighbors(c)[i] != c,
    {
        let s = self.spec_neighbors(c);
        assert forall|i: int| 0 <= i < s.len() implies self.in_bounds(#[trigger] s[i]) && s[i]
            != c by {
            let x = c.x as int;
            let y = c.y as int;
            assert(self.opt_coord(x - 1, y - 1).len() <= 1);
        }
    }
    /// Whether the tile at an on-grid coordinate is a bomb.
    pub fn is_bomb_at(&self, c: Coordinates) -> (r: bool)
        requires
            self.wf(),
            self.in_bounds(c),
        ensures
            r == (self.tile_of(c) is Bomb),
            r == self.bomb_at(c),
    {
        self.tile_at(c).is_bomb()
    }

    /// An interior cell (both sides free in both axes) has exactly 8
    /// neighbors.
    pub proof fn lemma_neighbor_count_interior(self, c: Coordinates)
        requires
            1 <= c.x,
            c.x + 1 < self.width,
            1 <= c.y,
            c.y + 1 < self.height,
        ensures
            self.spec_neighbors(c).len() == 8,
    {
    }

    /// A corner cell has exactly 3 neighbors (on maps with both sides at
    /// least 2).
    pub proof fn lemma_neighbor_count_corner(self, c: Coordinates)
        requires
            self.width >= 2,
            self.height >= 2,
            c.x == 0 || c.x + 1 == self.width,
            c.y == 0 || c.y + 1 == self.height,
        ensures
            self.spec_neighbors(c).len() == 3,
    {
    }

    /// A non-corner edge cell has exactly 5 neighbors.
    pub proof fn lemma_neighbor_count_edge(self, c: Coordinates)
        requires
            ((c.x == 0 || c.x + 1 == self.width) && self.width >= 2 && 1 <= c.y && c.y + 1
                < self.height) || ((c.y == 0 || c.y + 1 == self.height) && self.height >= 2 && 1
                <= c.x && c.x + 1 < self.width),
        ensures
            self.spec_neighbors(c).len() == 5,
    {
    }

    /// Two grids of the same dimensions whose bombs sit on the same cells
    /// have the same neighbor bomb counts everywhere.
    proof fn lemma_adjacent_agree(a: TileMap, b: TileMap)
        requires
            a.width == b.width,
            a.height == b.height,
            a.tiles@.len() == a.total_spec(),
            b.tiles@.len() == b.total_spec(),
            forall|j: int|
                0 <= j < a.total_spec() ==> ((#[trigger] a.tiles@[j] is Bomb) <==> (b.tiles@[j]
                    is Bomb)),
        ensures
            forall|x: int, y: int| #[trigger] a.adjacent_bombs(x, y) == b.adjacent_bombs(x, y),
    {
        assert forall|x: int, y: int| #[trigger] a.bomb_ind(x, y) == b.bomb_ind(x, y) by {
            if 0 <= x < a.width && 0 <= y < a.height {
                Self::lemma_cell_arith(x, y, a.width as int, a.height as int);
            }
        }
    }

    fn bomb_ind_exec(&self, x: i32, y: i32) -> (r: u8)
        requires
            self.tiles@.len() == self.total_spec(),
        ensures
            r as int == self.bomb_ind(x as int, y as int),
    {
        if x >= 0 && y >= 0 && x < self.width as i32 && y < self.height as i32 {
            let c = Coordinates { x: x as u16, y: y as u16 };
            proof {
                self.lemma_cell_in_range(c);
                Self::lemma_total_fits(self.width as int, self.height as int);
            }
            let idx: usize = (y as usize) * (self.width as usize) + (x as usize);
            if self.tiles[idx].is_bomb() {
                1
            } else {
                0
            }
        } else {
            0
        }
    }

    fn count_adjacent_bombs(&self, c: Coordinates) -> (n: u8)
        requires
            self.tiles@.len() == self.total_spec(),
            self.in_bounds(c),
        ensures
            n as int == self.adjacent_bombs(c.x as int, c.y as int),
            n <= 8,
    {
        let x = c.x as i32;
        let y = c.y as i32;
        let mut n: u8 = 0;
        n += self.bomb_ind_exec(x - 1, y - 1);
        n += self.bomb_ind_exec(x, y - 1);
        n += self.bomb_ind_exec(x + 1, y - 1);
        n += self.bomb_ind_exec(x - 1, y);
        n += self.bomb_ind_exec(x + 1, y);
        n += self.bomb_ind_exec(x - 1, y + 1);
        n += self.bomb_ind_exec(x, y + 1);
        n += self.bomb_ind_exec(x + 1, y + 1);
        n
    }

    /// Marks the given distinct cells as bombs, then fills every other cell
    /// with its neighbor bomb count.
    #[verifier::loop_isolation(false)]
    fn place_bombs(&mut self, cells: &Vec<usize>)
        requires
            old(self).wf(),
            old(self).is_blank(),
            cells@.no_duplicates(),
            forall|i: int| 0 <= i < cells@.len() ==> (#[trigger] cells@[i]) < old(self).total_spec(),
        ensures
            final(self).width == old(self).width,
            final(self).height == old(self).height,
            final(self).wf(),
            final(self).counts_consistent(),
            forall|j: int|
                0 <= j < final(self).total_spec() ==> ((#[trigger] final(self).tiles@[j] is Bomb)
                    <==> index_placed(cells@, cells@.len() as int, j)),
            final(self).bombs() == cells@.len(),
    {
        let n = cells.len();
        proof {
            lemma_count_bombs_none(self.tiles@);
        }
        let mut k: usize = 0;
        while k < n
            invariant
                k <= n,
                self.width == old(self).width,
                self.height == old(self).height,
                self.tiles@.len() == self.total_spec(),
                forall|j: int|
                    0 <= j < self.total_spec() ==> ((#[trigger] self.tiles@[j] is Bomb)
                        <==> index_placed(cells@, k as int, j)),
                forall|j: int|
                    0 <= j < self.total_spec() && !(self.tiles@[j] is Bomb) ==> self.tiles@[j]
                        == Tile::Empty,
                count_bombs(self.tiles@) == k,
            decreases n - k,
        {
            let idx = cells[k];
            let ghost k0 = k as int;
            let ghost t0 = self.tiles@;
            proof {
                assert(!index_placed(cells@, k0, idx as int)) by {
                    if index_placed(cells@, k0, idx as int) {
                        let i = choose|i: int| 0 <= i < k0 && cells@[i] as int == idx as int;
                        assert(cells@[i] == cells@[k0]);
                        assert(false);
                    }
                };
                lemma_count_bombs_update(t0, idx as int, Tile::Bomb);
            }
            self.tiles[idx] = Tile::Bomb;
            k += 1;
            proof {
                assert forall|j: int| 0 <= j < self.total_spec() implies ((#[trigger] self.tiles@[j]
                    is Bomb) <==> index_placed(cells@, k0 + 1, j)) by {
                    if j == idx as int {
                        assert(cells@[k0] as int == j);
                        assert(index_placed(cells@, k0 + 1, j));
                    } else {
                        assert(self.tiles@[j] == t0[j]);
                        if index_placed(cells@, k0 + 1, j) {
                            let i = choose|i: int| 0 <= i < k0 + 1 && cells@[i] as int == j;
                            assert(i < k0);
                            assert(index_placed(cells@, k0, j));
                        }
                        if index_placed(cells@, k0, j) {
                            let i = choose|i: int| 0 <= i < k0 && cells@[i] as int == j;
                            assert(0 <= i < k0 + 1 && cells@[i] as int == j);
                            assert(index_placed(cells@, k0 + 1, j));
                        }
                    }
                }
            }
        }
        proof {
            lemma_count_bombs_le_len(self.tiles@);
            Self::lemma_total_fits(self.width as int, self.height as int);
        }
        self.bomb_count = n as u32;
        let ghost g = *self;
        let mut y: u16 = 0;
        while y < self.height
            invariant
                y <= self.height,
                self.width == g.width,
                self.height == g.height,
                self.bomb_count == g.bomb_count,
                self.tiles@.len() == self.total_spec(),
                count_bombs(self.tiles@) == count_bombs(g.tiles@),
                forall|j: int|
                    0 <= j < self.total_spec() ==> ((#[trigger] self.tiles@[j] is Bomb) <==> (
                    g.tiles@[j] is Bomb)),
                forall|c2: Coordinates|
                    g.in_bounds(c2) && c2.y < y && !(#[trigger] self.tiles@[g.cell(c2)] is Bomb)
                        ==> self.tiles@[g.cell(c2)] == g.expected_tile(c2),
                forall|c2: Coordinates|
                    g.in_bounds(c2) && c2.y >= y ==> #[trigger] self.tiles@[g.cell(c2)]
                        == g.tiles@[g.cell(c2)],
            decreases self.height - y,
        {
            let mut x: u16 = 0;
            while x < self.width
                invariant
                    x <= self.width,
                    y < self.height,
                    self.width == g.width,
                    self.height == g.height,
                    self.bomb_count == g.bomb_count,
                    self.tiles@.len() == self.total_spec(),
                    count_bombs(self.tiles@) == count_bombs(g.tiles@),
                    forall|j: int|
                        0 <= j < self.total_spec() ==> ((#[trigger] self.tiles@[j] is Bomb) <==> (
                        g.tiles@[j] is Bomb)),
                    forall|c2: Coordinates|
                        g.in_bounds(c2) && (c2.y < y || (c2.y == y && c2.x < x)) && !(
                        #[trigger] self.tiles@[g.cell(c2)] is Bomb) ==> self.tiles@[g.cell(c2)]
                            == g.expected_tile(c2),
                    forall|c2: Coordinates|
                        g.in_bounds(c2) && (c2.y > y || (c2.y == y && c2.x >= x))
                            ==> #[trigger] self.tiles@[g.cell(c2)] == g.tiles@[g.cell(c2)],
                decreases self.width - x,
            {
                let c = Coordinates { x, y };
                let idx = self.cell_index(c);
                let here = self.tiles[idx];
                proof {
                    assert(idx as int == g.cell(c));
                }
                if !here.is_bomb() {
                    let nb = self.count_adjacent_bombs(c);
                    proof {
                        Self::lemma_adjacent_agree(g, *self);
                    }
                    let t = if nb > 0 {
                        Tile::BombNeighbor(nb)
                    } else {
                        Tile::Empty
                    };
                    let ghost t0 = self.tiles@;
                    proof {
                        lemma_count_bombs_update(t0, idx as int, t);
                    }
                    self.tiles[idx] = t;
                    proof {
                        assert forall|c2: Coordinates| g.in_bounds(c2) && c2 != c implies
                            #[trigger] self.tiles@[g.cell(c2)] == t0[g.cell(c2)] by {
                            if g.cell(c2) == g.cell(c) {
                                g.lemma_cell_injective(c2, c);
                            }
                            g.lemma_cell_in_range(c2);
                        }
                        assert(self.tiles@[g.cell(c)] == g.expected_tile(c));
                    }
                }
                x += 1;
            }
            y += 1;
        }
        proof {
            Self::lemma_adjacent_agree(g, *self);
            assert forall|c2: Coordinates|
                self.in_bounds(c2) && !(#[trigger] self.tile_of(c2) is Bomb) implies self.tile_of(
                c2,
            ) == self.expected_tile(c2) by {
                assert(self.cell(c2) == g.cell(c2));
                assert(self.tiles@[g.cell(c2)] == g.expected_tile(c2));
                assert(g.expected_tile(c2) == self.expected_tile(c2));
            }
            assert forall|j: int| 0 <= j < self.total_spec() implies ((#[trigger] self.tiles@[j]
                is Bomb) <==> index_placed(cells@, cells@.len() as int, j)) by {
                assert((g.tiles@[j] is Bomb) <==> index_placed(cells@, cells@.len() as int, j));
            }
        }
    }

    /// Places bombs on exactly the given distinct on-grid cells, then fills
    /// in every neighbor count. Deterministic; meant for reproducible
    /// set-ups.
    pub fn set_bombs_at(&mut self, bombs: &Vec<Coordinates>)
        requires
            old(self).wf(),
            old(self).is_blank(),
            bombs@.no_duplicates(),
            forall|i: int| 0 <= i < bombs@.len() ==> old(self).in_bounds(#[trigger] bombs@[i]),
        ensures
            final(self).width == old(self).width,
            final(self).height == old(self).height,
            final(self).wf(),
            final(self).counts_consistent(),
            forall|c: Coordinates|
                #![trigger final(self).bomb_at(c)]
                #![trigger bombs@.contains(c)]
                final(self).bomb_at(c) <==> bombs@.contains(c),
            final(self).bombs() == bombs@.len(),
    {
        let n = bombs.len();
        let mut cells: Vec<usize> = Vec::new();
        let mut i: usize = 0;
        while i < n
            invariant
                i <= n,
                n == bombs@.len(),
                cells@.len() == i,
                self == old(self),
                forall|t: int|
                    0 <= t < i ==> (#[trigger] cells@[t]) as int == self.cell(bombs@[t])
                        && cells@[t] < self.total_spec(),
                forall|t: int| 0 <= t < bombs@.len() ==> self.in_bounds(#[trigger] bombs@[t]),
            decreases n - i,
        {
            let idx = self.cell_index(bombs[i]);
            cells.push(idx);
            i += 1;
        }
        proof {
            assert forall|t1: int, t2: int|
                0 <= t1 < cells@.len() && 0 <= t2 < cells@.len() && t1 != t2 implies cells@[t1]
                != cells@[t2] by {
                if cells@[t1] == cells@[t2] {
                    self.lemma_cell_injective(bombs@[t1], bombs@[t2]);
                }
            }
        }
        let ghost mid = *self;
        self.place_bombs(&cells);
        proof {
            assert forall|c: Coordinates|
                #![trigger self.bomb_at(c)]
                #![trigger bombs@.contains(c)]
                self.bomb_at(c) <==> bombs@.contains(c) by {
                if self.bomb_at(c) {
                    self.lemma_cell_in_range(c);
                    let i2 = choose|i2: int|
                        0 <= i2 < cells@.len() && cells@[i2] as int == self.cell(c);
                    self.lemma_cell_injective(bombs@[i2], c);
                    assert(bombs@[i2] == c);
                    assert(bombs@.contains(c));
                }
                if bombs@.contains(c) {
                    let i2 = choose|i2: int| 0 <= i2 < bombs@.len() && bombs@[i2] == c;
                    self.lemma_cell_in_range(c);
                    assert(cells@[i2] as int == self.cell(c));
                    assert(index_placed(cells@, cells@.len() as int, self.cell(c)));
                }
            }
        }
    }

    /// The properties the sampling loops keep: the pool and the chosen list
    /// are each duplicate-free, hold only cell indices below the total, and
    /// share no element.
    spec fn sample_ok(pool: Seq<usize>, chosen: Seq<usize>, total: int) -> bool {
        &&& pool.no_duplicates()
        &&& chosen.no_duplicates()
        &&& forall|t: int| 0 <= t < pool.len() ==> (#[trigger] pool[t]) < total
        &&& forall|t: int| 0 <= t < chosen.len() ==> (#[trigger] chosen[t]) < total
        &&& forall|t1: int, t2: int|
            0 <= t1 < pool.len() && 0 <= t2 < chosen.len() ==> pool[t1] != chosen[t2]
    }

    /// The pool of all cell indices, in order.
    fn index_pool(total: usize) -> (pool: Vec<usize>)
        ensures
            pool@.len() == total,
            Self::sample_ok(pool@, Seq::<usize>::empty(), total as int),
    {
        let mut pool: Vec<usize> = Vec::new();
        let mut j: usize = 0;
        while j < total
            invariant
                j <= total,
                pool@.len() == j,
                forall|t: int| 0 <= t < j ==> (#[trigger] pool@[t]) as int == t,
            decreases total - j,
        {
            pool.push(j);
            j += 1;
        }
        pool
    }

    /// Moves the pool entry at `r` into the chosen list, swapping the last
    /// pool entry into its place.
    fn draw_cell(pool: &mut Vec<usize>, chosen: &mut Vec<usize>, r: usize, Ghost(total): Ghost<
        int,
    >)
        requires
            r < old(pool)@.len(),
            Self::sample_ok(old(pool)@, old(chosen)@, total),
        ensures
            final(pool)@.len() == old(pool)@.len() - 1,
            final(chosen)@.len() == old(chosen)@.len() + 1,
            Self::sample_ok(final(pool)@, final(chosen)@, total),
    {
        let ghost p0 = pool@;
        let v = pool.swap_remove(r);
        chosen.push(v);
        proof {
            let l = p0.len() as int;
            assert forall|t: int| 0 <= t < l - 1 implies #[trigger] pool@[t] == (if t
                == r as int {
                p0[l - 1]
            } else {
                p0[t]
            }) by {}
            assert forall|t1: int, t2: int|
                0 <= t1 < pool@.len() && 0 <= t2 < pool@.len() && t1 != t2 implies pool@[t1]
                != pool@[t2] by {}
            assert forall|t: int| 0 <= t < pool@.len() implies pool@[t] != v by {}
        }
    }

    /// Selects the requested number of distinct cells uniformly at random
    /// (clamped to the cell count), marks them as bombs, and computes every
    /// remaining cell's neighbor count. To be called once, on a blank map.
    #[verifier::loop_isolation(false)]
    pub fn set_bombs(&mut self, count: u32)
        requires
            old(self).wf(),
            old(self).is_blank(),
        ensures
            final(self).width == old(self).width,
            final(self).height == old(self).height,
            final(self).wf(),
            final(self).counts_consistent(),
            final(self).bombs() == if count as int <= old(self).total_spec() {
                count as int
            } else {
                old(self).total_spec()
            },
    {
        let total = self.total();
        let target: usize = if (count as usize) <= total {
            count as usize
        } else {
            total
        };
        let mut pool: Vec<usize> = Self::index_pool(total);
        let mut chosen: Vec<usize> = Vec::new();
        let mut k: usize = 0;
        while k < target
            invariant
                k <= target,
                pool@.len() == total - k,
                chosen@.len() == k,
                Self::sample_ok(pool@, chosen@, total as int),
            decreases target - k,
        {
            let r = random_below(pool.len());
            Self::draw_cell(&mut pool, &mut chosen, r, Ghost(total as int));
            k += 1;
        }
        self.place_bombs(&chosen);
    }

    /// Like `set_bombs`, but the cells are drawn from a small deterministic
    /// pseudo-random stream grown out of `seed`, so that a board can be
    /// reproduced. To be called once, on a blank map.
    #[verifier::loop_isolation(false)]
    pub fn set_bombs_seeded(&mut self, count: u32, seed: u64)
        requires
            old(self).wf(),
            old(self).is_blank(),
        ensures
            final(self).width == old(self).width,
            final(self).height == old(self).height,
            final(self).wf(),
            final(self).counts_consistent(),
            final(self).bombs() == if count as int <= old(self).total_spec() {
                count as int
            } else {
                old(self).total_spec()
            },
    {
        let total = self.total();
        let target: usize = if (count as usize) <= total {
            count as usize
        } else {
            total
        };
        let mut pool: Vec<usize> = Self::index_pool(total);
        let mut chosen: Vec<usize> = Vec::new();
        let mut state: u64 = seed;
        let mut k: usize = 0;
        while k < target
            invariant
                k <= target,
                pool@.len() == total - k,
                chosen@.len() == k,
                Self::sample_ok(pool@, chosen@, total as int),
            decreases target - k,
        {
            let r = Self::seeded_below(&mut state, pool.len());
            Self::draw_cell(&mut pool, &mut chosen, r, Ghost(total as int));
            k += 1;
        }
        self.place_bombs(&chosen);
    }

    /// The next value of a linear-congruential stream, reduced below the
    /// bound.
    fn seeded_below(state: &mut u64, bound: usize) -> (r: usize)
        requires
            0 < bound,
        ensures
            r < bound,
    {
        *state = state.wrapping_mul(6364136223846793005).wrapping_add(1442695040888963407);
        ((*state >> 33) as usize) % bound
    }
}

} // verus!
