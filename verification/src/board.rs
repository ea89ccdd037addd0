//! Runtime reveal/flag state layered over an immutable mine field.

use vstd::prelude::*;

use crate::coordinates::Coordinates;
use crate::tile_map::TileMap;

verus! {

/// How many cells of the covered set still hold a handle.
pub open spec fn count_covered(s: Seq<Option<u64>>) -> int
    decreases s.len(),
{
    if s.len() == 0 {
        0
    } else {
        count_covered(s.drop_last()) + if s.last() is Some {
            1int
        } else {
            0
        }
    }
}

proof fn lemma_count_covered_push(s: Seq<Option<u64>>, v: Option<u64>)
    ensures
        count_covered(s.push(v)) == count_covered(s) + if v is Some {
            1int
        } else {
            0
        },
{
    assert(s.push(v).drop_last() =~= s);
}

proof fn lemma_count_covered_bounds(s: Seq<Option<u64>>)
    ensures
        0 <= count_covered(s) <= s.len(),
    decreases s.len(),
{
    if s.len() > 0 {
        lemma_count_covered_bounds(s.drop_last());
    }
}

proof fn lemma_count_covered_update(s: Seq<Option<u64>>, i: int, v: Option<u64>)
    requires
        0 <= i < s.len(),
    ensures
        count_covered(s.update(i, v)) == count_covered(s) - (if s[i] is Some {
            1int
        } else {
            0
        }) + (if v is Some {
            1int
        } else {
            0
        }),
    decreases s.len(),
{
    if i == s.len() - 1 {
        assert(s.update(i, v).drop_last() =~= s.drop_last());
    } else {
        assert(s.update(i, v).drop_last() =~= s.drop_last().update(i, v));
        lemma_count_covered_update(s.drop_last(), i, v);
    }
}

/// Removing the one occurrence of a value from a duplicate-free sequence
/// keeps it duplicate-free, keeps every other element, and drops the value.
proof fn lemma_remove_value_props(s: Seq<Coordinates>, c: Coordinates)
    requires
        s.no_duplicates(),
    ensures
        s.remove_value(c).no_duplicates(),
        forall|k: int|
            0 <= k < s.remove_value(c).len() ==> s.contains(#[trigger] s.remove_value(c)[k]),
        s.contains(c) ==> s.remove_value(c).len() == s.len() - 1 && !s.remove_value(c).contains(
            c,
        ),
        !s.contains(c) ==> s.remove_value(c) == s,
        forall|x: Coordinates|
            x != c ==> (#[trigger] s.remove_value(c).contains(x) <==> s.contains(x)),
{
    s.index_of_first_ensures(c);
    if s.contains(c) {
        let i = s.index_of_first(c)->0;
        let r = s.remove(i);
        assert forall|k: int| 0 <= k < r.len() implies s.contains(#[trigger] r[k]) by {
            if k < i {
                assert(r[k] == s[k]);
            } else {
                assert(r[k] == s[k + 1]);
            }
        }
        assert forall|k1: int, k2: int|
            0 <= k1 < r.len() && 0 <= k2 < r.len() && k1 != k2 implies r[k1] != r[k2] by {}
        assert(!r.contains(c)) by {
            if r.contains(c) {
                let k = choose|k: int| 0 <= k < r.len() && r[k] == c;
                if k < i {
                    assert(s[k] == c && s[i] == c);
                } else {
                    assert(s[k + 1] == c && s[i] == c);
                }
                assert(false);
            }
        }
        assert forall|x: Coordinates| x != c implies (#[trigger] r.contains(x) <==> s.contains(
            x,
        )) by {
            if s.contains(x) {
                let k = choose|k: int| 0 <= k < s.len() && s[k] == x;
                if k < i {
                    assert(r[k] == x);
                } else {
                    assert(k != i);
                    assert(r[k - 1] == x);
                }
                assert(r.contains(x));
            }
        }
    }
}

/// A member of a mark list whose every entry is covered is itself covered.
proof fn lemma_marked_member_covered(b: Board, m: Coordinates)
    requires
        b.marked_tiles@.contains(m),
        forall|i: int|
            0 <= i < b.marked_tiles@.len() ==> b.is_covered(#[trigger] b.marked_tiles@[i]),
    ensures
        b.is_covered(m),
{
    let k = choose|k: int| 0 <= k < b.marked_tiles@.len() && b.marked_tiles@[k] == m;
    assert(b.is_covered(b.marked_tiles@[k]));
}

/// What a push adds to a sequence's membership.
proof fn lemma_push_contains(s: Seq<Coordinates>, c: Coordinates)
    ensures
        forall|x: Coordinates| #[trigger] s.push(c).contains(x) <==> s.contains(x) || x == c,
{
    assert forall|x: Coordinates| #[trigger] s.push(c).contains(x) implies s.contains(x) || x
        == c by {
        let k = choose|k: int| 0 <= k < s.push(c).len() && s.push(c)[k] == x;
        if k < s.len() {
            assert(s[k] == x);
        }
    }
    assert forall|x: Coordinates| s.contains(x) || x == c implies #[trigger] s.push(c).contains(
        x,
    ) by {
        if s.contains(x) {
            let k = choose|k: int| 0 <= k < s.len() && s[k] == x;
            assert(s.push(c)[k] == x);
        } else {
            assert(s.push(c)[s.len() as int] == x);
        }
    }
}

/// Pushing a fresh value and then removing it restores the sequence.
proof fn lemma_push_remove_value(s: Seq<Coordinates>, c: Coordinates)
    requires
        !s.contains(c),
    ensures
        s.push(c).remove_value(c) == s,
{
    let p = s.push(c);
    assert(p[s.len() as int] == c);
    assert(p.contains(c));
    p.index_of_first_ensures(c);
    let i = p.index_of_first(c)->0;
    if i < s.len() {
        assert(s[i] == c);
        assert(false);
    }
    assert(p.remove(i) =~= s);
}

/// Reveal/flag state over an immutable `TileMap`: one optional presentation
/// handle per cell (present while the tile is still covered), the covered
/// total, and the ordered list of marked (flagged) coordinates.
#[derive(Debug)]
pub struct Board {
    /// The immutable mine field under this board.
    pub tile_map: TileMap,
    /// Presentation handle of the board itself.
    pub entity: u64,
    /// One entry per cell, row-major: `Some(handle)` while the cell is
    /// covered, `None` once revealed.
    pub covered_tiles: Vec<Option<u64>>,
    /// Number of `Some` entries of `covered_tiles`.
    pub covered_count: usize,
    /// Currently flagged coordinates, oldest first, free of duplicates and
    /// always a subset of the covered cells.
    pub marked_tiles: Vec<Coordinates>,
}

impl Board {
    /// The handle still stored for a covered cell; `None` off the grid or
    /// once the cell is revealed.
    pub open spec fn covered_at(self, c: Coordinates) -> Option<u64> {
        if self.tile_map.in_bounds(c) {
            self.covered_tiles@[self.tile_map.cell(c)]
        } else {
            None
        }
    }

    /// Whether the tile at `c` is still covered.
    pub open spec fn is_covered(self, c: Coordinates) -> bool {
        self.covered_at(c) is Some
    }

    /// Whether the tile at `c` is currently marked.
    pub open spec fn is_marked(self, c: Coordinates) -> bool {
        self.marked_tiles@.contains(c)
    }

    /// Number of still-covered tiles.
    pub open spec fn covered_left(self) -> int {
        self.covered_count as int
    }

    /// The board's invariant: a well-formed map, one covered-set entry per
    /// cell, an accurate covered total, and a duplicate-free mark list whose
    /// members are all covered.
    pub open spec fn wf(self) -> bool {
        &&& self.tile_map.wf()
        &&& self.covered_tiles@.len() == self.tile_map.total_spec()
        &&& self.covered_count == count_covered(self.covered_tiles@)
        &&& self.marked_tiles@.no_duplicates()
        &&& forall|i: int|
            0 <= i < self.marked_tiles@.len() ==> self.is_covered(#[trigger] self.marked_tiles@[i])
    }

    /// A placeholder board over an empty 0-by-0 map, as used before a level
    /// is set up.
    pub fn init() -> (b: Board)
        ensures
            b.wf(),
            b.tile_map.width == 0,
            b.tile_map.height == 0,
            b.covered_left() == 0,
            b.marked_tiles@ == Seq::<Coordinates>::empty(),
    {
        Board {
            tile_map: TileMap::empty(0, 0),
            entity: 0,
            covered_tiles: Vec::new(),
            covered_count: 0,
            marked_tiles: Vec::new(),
        }
    }

    /// Wraps a freshly generated map. The presentation layer hands one
    /// opaque handle per cell (row-major); every tile starts covered and
    /// unmarked.
    pub fn new(tile_map: TileMap, entity: u64, handles: &Vec<u64>) -> (b: Board)
        requires
            tile_map.wf(),
            handles@.len() == tile_map.total_spec(),
        ensures
            b.wf(),
            b.tile_map == tile_map,
            b.entity == entity,
            b.covered_left() == tile_map.total_spec(),
            b.marked_tiles@ == Seq::<Coordinates>::empty(),
            forall|c: Coordinates|
                tile_map.in_bounds(c) ==> #[trigger] b.covered_at(c) == Some(
                    handles@[tile_map.cell(c)],
                ),
    {
        let total = tile_map.total();
        let mut covered_tiles: Vec<Option<u64>> = Vec::new();
        let mut j: usize = 0;
        while j < total
            invariant
                j <= total,
                total == tile_map.total_spec(),
                handles@.len() == total,
                covered_tiles@.len() == j,
                count_covered(covered_tiles@) == j,
                forall|i: int| 0 <= i < j ==> covered_tiles@[i] == Some(handles@[i]),
            decreases total - j,
        {
            proof {
                lemma_count_covered_push(covered_tiles@, Some(handles@[j as int]));
            }
            covered_tiles.push(Some(handles[j]));
            j += 1;
        }
        let b = Board { tile_map, entity, covered_tiles, covered_count: total, marked_tiles: Vec::new() };
        proof {
            assert forall|c: Coordinates| b.tile_map.in_bounds(c) implies #[trigger] b.covered_at(
                c,
            ) == Some(handles@[b.tile_map.cell(c)]) by {
                b.tile_map.lemma_cell_in_range(c);
            }
        }
        b
    }

    /// The handle stored for `c`, read without any change.
    pub fn covered_handle(&self, c: Coordinates) -> (r: Option<u64>)
        requires
            self.wf(),
        ensures
            r == self.covered_at(c),
    {
        if self.tile_map.is_in_bounds(c) {
            let idx = self.tile_map.cell_index(c);
            self.covered_tiles[idx]
        } else {
            None
        }
    }

    /// Whether `c` is currently marked, read without any change.
    pub fn is_marked_at(&self, c: Coordinates) -> (r: bool)
        ensures
            r == self.is_marked(c),
    {
        let n = self.marked_tiles.len();
        let mut i: usize = 0;
        while i < n
            invariant
                i <= n,
                n == self.marked_tiles@.len(),
                forall|t: int| 0 <= t < i ==> self.marked_tiles@[t] != c,
            decreases n - i,
        {
            if self.marked_tiles[i] == c {
                return true;
            }
            i += 1;
        }
        false
    }

    /// What `tile_to_uncover` hands out: the covered handle, unless the tile
    /// is marked (or not covered at all).
    pub open spec fn uncover_candidate(self, c: Coordinates) -> Option<u64> {
        if self.is_covered(c) && !self.is_marked(c) {
            self.covered_at(c)
        } else {
            None
        }
    }

    /// The tile's presentation handle if the tile is covered and not marked;
    /// `None` if it is already uncovered or currently marked, so that a
    /// flagged cell can never be revealed by accident.
    pub fn tile_to_uncover(&self, coords: &Coordinates) -> (r: Option<u64>)
        requires
            self.wf(),
        ensures
            r == self.uncover_candidate(*coords),
    {
        if self.is_marked_at(*coords) {
            None
        } else {
            self.covered_handle(*coords)
        }
    }

    /// The covered set after uncovering `c`: the cell's entry is cleared,
    /// everything else stays.
    pub open spec fn covered_after_uncover(self, c: Coordinates) -> Seq<Option<u64>> {
        if self.tile_map.in_bounds(c) {
            self.covered_tiles@.update(self.tile_map.cell(c), None)
        } else {
            self.covered_tiles@
        }
    }

    /// The mark list after uncovering `c`: its occurrence, if any, is
    /// dropped; the order of the rest is kept.
    pub open spec fn marked_after_uncover(self, c: Coordinates) -> Seq<Coordinates> {
        self.marked_tiles@.remove_value(c)
    }

    /// Uncovers the tile at `coords`, first unmarking it if needed, and
    /// returns the removed handle. Revealing an already-uncovered tile
    /// returns `None` and changes nothing.
    pub fn try_uncover_tile(&mut self, coords: &Coordinates) -> (r: Option<u64>)
        requires
            old(self).wf(),
        ensures
            final(self).wf(),
            r == old(self).covered_at(*coords),
            final(self).tile_map == old(self).tile_map,
            final(self).entity == old(self).entity,
            final(self).covered_tiles@ == old(self).covered_after_uncover(*coords),
            final(self).marked_tiles@ == old(self).marked_after_uncover(*coords),
            final(self).covered_left() == old(self).covered_left() - (if old(self).is_covered(
                *coords,
            ) {
                1int
            } else {
                0
            }),
            final(self).covered_at(*coords) is None,
            !final(self).is_marked(*coords),
            forall|c2: Coordinates|
                c2 != *coords ==> #[trigger] final(self).covered_at(c2) == old(self).covered_at(
                    c2,
                ),
            forall|c2: Coordinates|
                c2 != *coords ==> (#[trigger] final(self).is_marked(c2) <==> old(self).is_marked(
                    c2,
                )),
    {
        proof {
            lemma_remove_value_props(old(self).marked_tiles@, *coords);
        }
        if self.is_marked_at(*coords) {
            let _ = self.unmark_tile(coords);
        } else {
            proof {
                self.marked_tiles@.index_of_first_ensures(*coords);
            }
        }
        proof {
            assert(self.marked_tiles@ == old(self).marked_after_uncover(*coords));
        }
        let r: Option<u64>;
        if self.tile_map.is_in_bounds(*coords) {
            let idx = self.tile_map.cell_index(*coords);
            let entry = self.covered_tiles[idx];
            match entry {
                Some(h) => {
                    let ghost s0 = self.covered_tiles@;
                    proof {
                        lemma_count_covered_update(s0, idx as int, None);
                        lemma_count_covered_bounds(s0.update(idx as int, None));
                    }
                    self.covered_tiles[idx] = None;
                    self.covered_count -= 1;
                    proof {
                        self.lemma_uncover_keeps_marks(*old(self), *coords);
                    }
                    r = Some(h);
                },
                None => {
                    proof {
                        assert(self.covered_tiles@.update(idx as int, None) =~= self.covered_tiles@);
                    }
                    r = None;
                },
            }
        } else {
            r = None;
        }
        proof {
            if old(self).tile_map.in_bounds(*coords) {
                old(self).tile_map.lemma_cell_in_range(*coords);
            }
            assert forall|c2: Coordinates| c2 != *coords implies #[trigger] self.covered_at(c2)
                == old(self).covered_at(c2) by {
                if old(self).tile_map.in_bounds(*coords) && old(self).tile_map.in_bounds(c2) {
                    old(self).tile_map.lemma_cell_in_range(c2);
                    if old(self).tile_map.cell(c2) == old(self).tile_map.cell(*coords) {
                        old(self).tile_map.lemma_cell_injective(c2, *coords);
                    }
                }
            }
        }
        r
    }

    /// After clearing one covered cell and dropping its mark, the remaining
    /// marks are still duplicate-free and still covered.
    proof fn lemma_uncover_keeps_marks(self, b0: Board, c: Coordinates)
        requires
            b0.wf(),
            b0.tile_map.in_bounds(c),
            self.tile_map == b0.tile_map,
            self.covered_tiles@ == b0.covered_tiles@.update(b0.tile_map.cell(c), None),
            self.marked_tiles@ == b0.marked_tiles@.remove_value(c),
        ensures
            self.marked_tiles@.no_duplicates(),
            forall|i: int|
                0 <= i < self.marked_tiles@.len() ==> self.is_covered(
                    #[trigger] self.marked_tiles@[i],
                ),
    {
        lemma_remove_value_props(b0.marked_tiles@, c);
        assert forall|i: int| 0 <= i < self.marked_tiles@.len() implies self.is_covered(
            #[trigger] self.marked_tiles@[i],
        ) by {
            let m = self.marked_tiles@[i];
            assert(b0.marked_tiles@.contains(m));
            lemma_marked_member_covered(b0, m);
            if m != c {
                if b0.tile_map.cell(m) == b0.tile_map.cell(c) {
                    b0.tile_map.lemma_cell_injective(m, c);
                }
                b0.tile_map.lemma_cell_in_range(m);
                b0.tile_map.lemma_cell_in_range(c);
            } else {
                assert(b0.marked_tiles@.contains(c));
                assert(!b0.marked_tiles@.remove_value(c).contains(c));
                assert(false);
            }
        }
    }

    /// Removes `coords` from the mark list, returning it, or `None` (and
    /// changing nothing) when it was not marked — that inconsistency is
    /// reported, never fatal.
    #[verifier::loop_isolation(false)]
    fn unmark_tile(&mut self, coords: &Coordinates) -> (r: Option<Coordinates>)
        requires
            old(self).wf(),
        ensures
            final(self).wf(),
            final(self).tile_map == old(self).tile_map,
            final(self).entity == old(self).entity,
            final(self).covered_tiles@ == old(self).covered_tiles@,
            final(self).covered_count == old(self).covered_count,
            final(self).marked_tiles@ == old(self).marked_tiles@.remove_value(*coords),
            r == if old(self).is_marked(*coords) {
                Some(*coords)
            } else {
                None::<Coordinates>
            },
    {
        let n = self.marked_tiles.len();
        let mut i: usize = 0;
        while i < n
            invariant
                i <= n,
                self == old(self),
                n == self.marked_tiles@.len(),
                forall|t: int| 0 <= t < i ==> self.marked_tiles@[t] != *coords,
            decreases n - i,
        {
            if self.marked_tiles[i] == *coords {
                proof {
                    self.marked_tiles@.index_of_first_ensures(*coords);
                    lemma_remove_value_props(self.marked_tiles@, *coords);
                    assert(self.marked_tiles@.index_of_first(*coords) == Some(i as int));
                }
                let removed = self.marked_tiles.remove(i);
                proof {
                    assert forall|t: int|
                        0 <= t < self.marked_tiles@.len() implies self.is_covered(
                        #[trigger] self.marked_tiles@[t],
                    ) by {
                        assert(old(self).marked_tiles@.contains(self.marked_tiles@[t]));
                        lemma_marked_member_covered(*old(self), self.marked_tiles@[t]);
                    }
                }
                return Some(removed);
            }
            i += 1;
        }
        proof {
            assert(!self.marked_tiles@.contains(*coords));
            self.marked_tiles@.index_of_first_ensures(*coords);
        }
        None
    }

    /// What `try_toggle_mark` hands out: the covered handle with the new
    /// mark state, or `None` for a tile that is not covered.
    pub open spec fn toggle_result(self, c: Coordinates) -> Option<(u64, bool)> {
        match self.covered_at(c) {
            Some(h) => Some((h, !self.is_marked(c))),
            None => None,
        }
    }

    /// The mark list after toggling `c`: unchanged for an uncovered tile,
    /// shortened by `c` when it was marked, extended by `c` otherwise.
    pub open spec fn marked_after_toggle(self, c: Coordinates) -> Seq<Coordinates> {
        if !self.is_covered(c) {
            self.marked_tiles@
        } else if self.is_marked(c) {
            self.marked_tiles@.remove_value(c)
        } else {
            self.marked_tiles@.push(c)
        }
    }

    /// Toggles the flag on a covered tile and returns its handle together
    /// with the new mark state; `None` for a revealed or off-grid tile,
    /// which cannot be flagged.
    pub fn try_toggle_mark(&mut self, coords: &Coordinates) -> (r: Option<(u64, bool)>)
        requires
            old(self).wf(),
        ensures
            final(self).wf(),
            r == old(self).toggle_result(*coords),
            final(self).tile_map == old(self).tile_map,
            final(self).entity == old(self).entity,
            final(self).covered_tiles@ == old(self).covered_tiles@,
            final(self).covered_count == old(self).covered_count,
            final(self).marked_tiles@ == old(self).marked_after_toggle(*coords),
            r is Some ==> (final(self).is_marked(*coords) <==> !old(self).is_marked(*coords)),
            r is None ==> (final(self).is_marked(*coords) <==> old(self).is_marked(*coords)),
            forall|c2: Coordinates|
                c2 != *coords ==> (#[trigger] final(self).is_marked(c2) <==> old(self).is_marked(
                    c2,
                )),
    {
        proof {
            lemma_remove_value_props(old(self).marked_tiles@, *coords);
            lemma_push_contains(old(self).marked_tiles@, *coords);
        }
        let entry = self.covered_handle(*coords);
        match entry {
            None => None,
            Some(h) => {
                let mark: bool;
                if self.is_marked_at(*coords) {
                    let _ = self.unmark_tile(coords);
                    mark = false;
                } else {
                    self.marked_tiles.push(*coords);
                    mark = true;
                    proof {
                        assert forall|t: int|
                            0 <= t < self.marked_tiles@.len() implies self.is_covered(
                            #[trigger] self.marked_tiles@[t],
                        ) by {
                            if t < self.marked_tiles@.len() - 1 {
                                assert(self.marked_tiles@[t] == old(self).marked_tiles@[t]);
                                assert(old(self).is_covered(old(self).marked_tiles@[t]));
                            } else {
                                assert(self.marked_tiles@[t] == *coords);
                            }
                        }
                    }
                }
                Some((h, mark))
            },
        }
    }

    /// Of the listed coordinates, the handles of those still covered, in
    /// list order.
    pub open spec fn covered_handles_of(self, cs: Seq<Coordinates>) -> Seq<u64>
        decreases cs.len(),
    {
        if cs.len() == 0 {
            Seq::<u64>::empty()
        } else {
            let rest = self.covered_handles_of(cs.drop_last());
            match self.covered_at(cs.last()) {
                Some(h) => rest.push(h),
                None => rest,
            }
        }
    }

    /// Presentation handles of every neighbor of `coord` that is still
    /// covered — the frontier that flood-fill propagation expands into.
    #[verifier::loop_isolation(false)]
    #[verifier::rlimit(50)]
    pub fn adjacent_covered_tiles(&self, coord: Coordinates) -> (r: Vec<u64>)
        requires
            self.wf(),
        ensures
            r@ == self.covered_handles_of(self.tile_map.spec_neighbors(coord)),
    {
        let neighbors = self.tile_map.safe_square_at(coord);
        let mut r: Vec<u64> = Vec::new();
        let mut i: usize = 0;
        while i < neighbors.len()
            invariant
                i <= neighbors@.len(),
                r@ == self.covered_handles_of(neighbors@.take(i as int)),
            decreases neighbors@.len() - i,
        {
            proof {
                assert(neighbors@.take(i + 1).drop_last() =~= neighbors@.take(i as int));
                assert(neighbors@.take(i + 1).last() == neighbors@[i as int]);
            }
            match self.covered_handle(neighbors[i]) {
                Some(h) => r.push(h),
                None => {},
            }
            i += 1;
        }
        proof {
            assert(neighbors@.take(neighbors@.len() as int) =~= neighbors@);
        }
        r
    }

    /// Whether the board is cleared: every tile still covered is a bomb,
    /// that is, the covered total has shrunk to the map's bomb total — the
    /// win condition.
    pub fn is_completed(&self) -> (r: bool)
        requires
            self.wf(),
        ensures
            r == (self.covered_left() == self.tile_map.bombs()),
    {
        self.tile_map.bomb_count() as usize == self.covered_count
    }

    /// Law: uncovering is one-way. On a covered tile, uncovering returns
    /// the stored handle; uncovering the same coordinate again, on the board
    /// that resulted, returns `None` and leaves both the covered set and the
    /// mark list exactly as they were.
    pub proof fn lemma_uncover_idempotent(b0: Board, b1: Board, c: Coordinates)
        requires
            b0.wf(),
            b0.is_covered(c),
            b1.tile_map == b0.tile_map,
            b1.covered_tiles@ == b0.covered_after_uncover(c),
            b1.marked_tiles@ == b0.marked_after_uncover(c),
        ensures
            b0.covered_at(c) is Some,
            b1.covered_at(c) is None,
            b1.covered_after_uncover(c) == b1.covered_tiles@,
            b1.marked_after_uncover(c) == b1.marked_tiles@,
    {
        b0.tile_map.lemma_cell_in_range(c);
        assert(b1.covered_after_uncover(c) =~= b1.covered_tiles@);
        lemma_remove_value_props(b0.marked_tiles@, c);
        assert(!b1.marked_tiles@.contains(c));
        b1.marked_tiles@.index_of_first_ensures(c);
    }

    /// Law: marking alternates. Toggling a covered, unmarked tile returns
    /// its handle with `true`; toggling the same tile again, on the board
    /// that resulted, returns the same handle with `false` and restores the
    /// original mark list.
    pub proof fn lemma_toggle_alternates(b0: Board, b1: Board, c: Coordinates)
        requires
            b0.wf(),
            b0.is_covered(c),
            !b0.is_marked(c),
            b1.tile_map == b0.tile_map,
            b1.covered_tiles@ == b0.covered_tiles@,
            b1.marked_tiles@ == b0.marked_after_toggle(c),
        ensures
            b0.toggle_result(c) == Some((b0.covered_at(c)->0, true)),
            b1.toggle_result(c) == Some((b0.covered_at(c)->0, false)),
            b1.marked_after_toggle(c) == b0.marked_tiles@,
    {
        assert(b1.marked_tiles@ == b0.marked_tiles@.push(c));
        assert(b1.marked_tiles@[b0.marked_tiles@.len() as int] == c);
        assert(b1.is_marked(c));
        lemma_push_remove_value(b0.marked_tiles@, c);
    }

    /// Law: a tile that is not covered never toggles, and the mark list is
    /// untouched.
    pub proof fn lemma_toggle_uncovered(b: Board, c: Coordinates)
        requires
            b.wf(),
            !b.is_covered(c),
        ensures
            b.toggle_result(c) is None,
            b.marked_after_toggle(c) == b.marked_tiles@,
    {
    }

    /// Law: a marked tile is withheld from uncovering even though it is
    /// covered; after one unmarking toggle the same covered tile is offered
    /// with its stored handle.
    pub proof fn lemma_marked_blocks_uncover(b0: Board, b1: Board, c: Coordinates)
        requires
            b0.wf(),
            b0.is_covered(c),
            b0.is_marked(c),
            b1.tile_map == b0.tile_map,
            b1.covered_tiles@ == b0.covered_tiles@,
            b1.marked_tiles@ == b0.marked_after_toggle(c),
        ensures
            b0.uncover_candidate(c) is None,
            b0.covered_at(c) is Some,
            b1.uncover_candidate(c) == b0.covered_at(c),
    {
        lemma_remove_value_props(b0.marked_tiles@, c);
        assert(!b1.marked_tiles@.contains(c));
    }
}

} // verus!
