//! Per-tick flood-fill reveal propagation over a board.
//!
//! Reveal propagation is staged: each input trigger marks one tile, and each
//! scheduling tick processes the whole batch of marked tiles at once,
//! uncovering them and marking the covered neighbors of empty tiles for the
//! next tick. A large empty region therefore clears over several ticks,
//! bounding the work done per tick.

use vstd::prelude::*;

use crate::board::Board;
use crate::coordinates::Coordinates;
use crate::tile::Tile;
use crate::tile_map::TileMap;

verus! {

/// Marker attached to a tile that is queued to be revealed on the next
/// tick.
#[derive(Debug, Default, Copy, Clone, PartialEq, Eq, Structural, Hash)]
pub struct Uncover;

/// What one reveal tick produced: the removed handles with the kind of tile
/// each of them hid, whether a bomb was revealed (a loss), and the tiles
/// marked for the next tick.
#[derive(Debug)]
pub struct TickOutcome {
    /// One entry per handle removed this tick, in processing order,
    /// together with the revealed tile kind.
    pub revealed: Vec<(u64, Tile)>,
    /// Whether some processed tile was a bomb.
    pub exploded: bool,
    /// The still-covered neighbors of the empty tiles processed this tick,
    /// each carrying the reveal marker for the next tick.
    pub next: Vec<(Coordinates, Uncover)>,
}

/// The abstract state a reveal tick steps through: the covered set and mark
/// list of the board, plus the outputs accumulated so far.
pub struct TickState {
    pub covered: Seq<Option<u64>>,
    pub marked: Seq<Coordinates>,
    pub revealed: Seq<(u64, Tile)>,
    pub exploded: bool,
    pub next: Seq<Coordinates>,
}

/// The handle a covered set holds at `c`: `None` off the grid.
pub open spec fn spec_covered_at(tm: TileMap, covered: Seq<Option<u64>>, c: Coordinates) -> Option<
    u64,
> {
    if tm.in_bounds(c) {
        covered[tm.cell(c)]
    } else {
        None
    }
}

/// Of the listed coordinates, those whose cell is still covered, in order.
pub open spec fn frontier_of(
    tm: TileMap,
    covered: Seq<Option<u64>>,
    cs: Seq<Coordinates>,
) -> Seq<Coordinates>
    decreases cs.len(),
{
    if cs.len() == 0 {
        Seq::<Coordinates>::empty()
    } else {
        let rest = frontier_of(tm, covered, cs.drop_last());
        if spec_covered_at(tm, covered, cs.last()) is Some {
            rest.push(cs.last())
        } else {
            rest
        }
    }
}

/// Processing one queued tile: its covered entry is cleared and its mark
/// dropped; if it was still covered, its handle and tile kind are reported;
/// a bomb signals the explosion; an empty tile queues its still-covered
/// neighbors for the next tick.
pub open spec fn tick_step(tm: TileMap, st: TickState, c: Coordinates) -> TickState {
    let h = spec_covered_at(tm, st.covered, c);
    let t = tm.tile_of(c);
    let covered2 = if tm.in_bounds(c) {
        st.covered.update(tm.cell(c), None)
    } else {
        st.covered
    };
    TickState {
        covered: covered2,
        marked: st.marked.remove_value(c),
        revealed: if h is Some {
            st.revealed.push((h->0, t))
        } else {
            st.revealed
        },
        exploded: st.exploded || t is Bomb,
        next: if t is Empty {
            st.next + frontier_of(tm, covered2, tm.spec_neighbors(c))
        } else {
            st.next
        },
    }
}

/// Processing a whole queue, in order.
pub open spec fn tick_run(tm: TileMap, st: TickState, pending: Seq<Coordinates>) -> TickState
    decreases pending.len(),
{
    if pending.len() == 0 {
        st
    } else {
        tick_step(tm, tick_run(tm, st, pending.drop_last()), pending.last())
    }
}

impl Board {
    /// The tick state a tick starts from: the board as it stands, nothing
    /// produced yet.
    pub open spec fn tick_start(self) -> TickState {
        TickState {
            covered: self.covered_tiles@,
            marked: self.marked_tiles@,
            revealed: Seq::<(u64, Tile)>::empty(),
            exploded: false,
            next: Seq::<Coordinates>::empty(),
        }
    }
}

/// Law: one tick uncovers exactly the queued cells. Every queued cell's
/// covered entry is cleared, every other cell keeps its entry, and the
/// explosion outcome fires precisely when some queued cell is a bomb.
pub proof fn lemma_tick_run_effects(tm: TileMap, st: TickState, pending: Seq<Coordinates>)
    requires
        st.covered.len() == tm.total_spec(),
        forall|i: int| 0 <= i < pending.len() ==> tm.in_bounds(#[trigger] pending[i]),
    ensures
        tick_run(tm, st, pending).covered.len() == st.covered.len(),
        forall|c: Coordinates|
            #[trigger] pending.contains(c) ==> spec_covered_at(
                tm,
                tick_run(tm, st, pending).covered,
                c,
            ) is None,
        forall|c: Coordinates|
            !(#[trigger] pending.contains(c)) ==> spec_covered_at(
                tm,
                tick_run(tm, st, pending).covered,
                c,
            ) == spec_covered_at(tm, st.covered, c),
        tick_run(tm, st, pending).exploded == (st.exploded || exists|i: int|
            0 <= i < pending.len() && tm.tile_of(#[trigger] pending[i]) is Bomb),
    decreases pending.len(),
{
    if pending.len() > 0 {
        let rest = pending.drop_last();
        let c0 = pending.last();
        lemma_tick_run_effects(tm, st, rest);
        let mid = tick_run(tm, st, rest);
        let end = tick_run(tm, st, pending);
        tm.lemma_cell_in_range(c0);
        assert forall|c: Coordinates| #[trigger] pending.contains(c) implies spec_covered_at(
            tm,
            end.covered,
            c,
        ) is None by {
            let i = choose|i: int| 0 <= i < pending.len() && pending[i] == c;
            tm.lemma_cell_in_range(c);
            if c != c0 {
                assert(i < pending.len() - 1);
                assert(rest[i] == c);
                assert(rest.contains(c));
                if tm.cell(c) == tm.cell(c0) {
                    tm.lemma_cell_injective(c, c0);
                }
            }
        }
        assert forall|c: Coordinates| !(#[trigger] pending.contains(c)) implies spec_covered_at(
            tm,
            end.covered,
            c,
        ) == spec_covered_at(tm, st.covered, c) by {
            assert(!rest.contains(c)) by {
                if rest.contains(c) {
                    let i = choose|i: int| 0 <= i < rest.len() && rest[i] == c;
                    assert(pending[i] == c);
                    assert(pending.contains(c));
                }
            }
            assert(c != c0) by {
                assert(pending[pending.len() - 1] == c0);
            }
            if tm.in_bounds(c) {
                tm.lemma_cell_in_range(c);
                if tm.cell(c) == tm.cell(c0) {
                    tm.lemma_cell_injective(c, c0);
                }
            }
        }
        assert(end.exploded == (st.exploded || exists|i: int|
            0 <= i < pending.len() && tm.tile_of(#[trigger] pending[i]) is Bomb)) by {
            if exists|i: int| 0 <= i < rest.len() && tm.tile_of(#[trigger] rest[i]) is Bomb {
                let i = choose|i: int| 0 <= i < rest.len() && tm.tile_of(rest[i]) is Bomb;
                assert(pending[i] == rest[i]);
                assert(tm.tile_of(pending[i]) is Bomb);
            }
            if tm.tile_of(c0) is Bomb {
                assert(tm.tile_of(pending[pending.len() - 1]) is Bomb);
            }
            if exists|i: int| 0 <= i < pending.len() && tm.tile_of(#[trigger] pending[i]) is Bomb {
                let i = choose|i: int|
                    0 <= i < pending.len() && tm.tile_of(pending[i]) is Bomb;
                if i < pending.len() - 1 {
                    assert(rest[i] == pending[i]);
                    assert(tm.tile_of(rest[i]) is Bomb);
                } else {
                    assert(pending[i] == c0);
                }
            }
        }
    }
}

/// Handles one reveal trigger: if the tile is covered and not marked, its
/// handle is returned together with the reveal marker to attach; a marked
/// or already-revealed tile yields `None` and nothing happens.
pub fn trigger_event_handler(board: &Board, coords: Coordinates) -> (r: Option<(u64, Uncover)>)
    requires
        board.wf(),
    ensures
        r == match board.uncover_candidate(coords) {
            Some(h) => Some((h, Uncover)),
            None => None::<(u64, Uncover)>,
        },
{
    match board.tile_to_uncover(&coords) {
        Some(h) => Some((h, Uncover)),
        None => None,
    }
}

/// Runs one reveal tick over every queued tile, in queue order: each is
/// uncovered (unmarking it first if needed); a bomb signals the explosion
/// outcome; an empty tile queues its still-covered neighbors for the next
/// tick. The outcome follows `tick_run` over the queued coordinates
/// exactly.
#[verifier::loop_isolation(false)]
#[verifier::rlimit(50)]
pub fn uncover_tiles(board: &mut Board, pending: &Vec<(Coordinates, Uncover)>) -> (out:
    TickOutcome)
    requires
        old(board).wf(),
        forall|i: int|
            0 <= i < pending@.len() ==> old(board).tile_map.in_bounds(
                (#[trigger] pending@[i]).0,
            ),
    ensures
        final(board).wf(),
        final(board).tile_map == old(board).tile_map,
        final(board).entity == old(board).entity,
        ({
            let end = tick_run(
                old(board).tile_map,
                old(board).tick_start(),
                pending@.map_values(|p: (Coordinates, Uncover)| p.0),
            );
            &&& final(board).covered_tiles@ == end.covered
            &&& final(board).marked_tiles@ == end.marked
            &&& out.revealed@ == end.revealed
            &&& out.exploded == end.exploded
            &&& out.next@.map_values(|p: (Coordinates, Uncover)| p.0) == end.next
        }),
        forall|i: int|
            0 <= i < pending@.len() ==> !final(board).is_covered((#[trigger] pending@[i]).0),
        out.exploded == exists|i: int|
            0 <= i < pending@.len() && old(board).tile_map.tile_of(
                (#[trigger] pending@[i]).0,
            ) is Bomb,
{
    let ghost tm = board.tile_map;
    let ghost st0 = board.tick_start();
    let ghost coords_of = pending@.map_values(|p: (Coordinates, Uncover)| p.0);
    let mut revealed: Vec<(u64, Tile)> = Vec::new();
    let mut exploded: bool = false;
    let mut next: Vec<(Coordinates, Uncover)> = Vec::new();
    let n = pending.len();
    let mut k: usize = 0;
    while k < n
        invariant
            k <= n,
            board.wf(),
            board.tile_map == tm,
            board.entity == old(board).entity,
            ({
                let st = tick_run(tm, st0, coords_of.take(k as int));
                &&& board.covered_tiles@ == st.covered
                &&& board.marked_tiles@ == st.marked
                &&& revealed@ == st.revealed
                &&& exploded == st.exploded
                &&& next@.map_values(|p: (Coordinates, Uncover)| p.0) == st.next
            }),
        decreases n - k,
    {
        let ghost st = tick_run(tm, st0, coords_of.take(k as int));
        let c = pending[k].0;
        proof {
            assert(coords_of.take(k as int + 1).drop_last() =~= coords_of.take(k as int));
            assert(coords_of.take(k as int + 1).last() == c);
        }
        let h = board.try_uncover_tile(&c);
        let t = board.tile_map.tile_at(c);
        match h {
            Some(handle) => revealed.push((handle, t)),
            None => {},
        }
        if t.is_bomb() {
            exploded = true;
        }
        if t.is_empty() {
            let ghost covered2 = board.covered_tiles@;
            let ghost next_mid = next@.map_values(|p: (Coordinates, Uncover)| p.0);
            let neighbors = board.tile_map.safe_square_at(c);
            let mut i: usize = 0;
            while i < neighbors.len()
                invariant
                    i <= neighbors@.len(),
                    next@.map_values(|p: (Coordinates, Uncover)| p.0) == next_mid + frontier_of(
                        tm,
                        covered2,
                        neighbors@.take(i as int),
                    ),
                decreases neighbors@.len() - i,
            {
                let ghost prev = next@.map_values(|p: (Coordinates, Uncover)| p.0);
                proof {
                    assert(neighbors@.take(i + 1).drop_last() =~= neighbors@.take(i as int));
                    assert(neighbors@.take(i + 1).last() == neighbors@[i as int]);
                }
                let nc = neighbors[i];
                if board.covered_handle(nc).is_some() {
                    next.push((nc, Uncover));
                    proof {
                        assert(next@.map_values(|p: (Coordinates, Uncover)| p.0) =~= prev.push(
                            nc,
                        ));
                    }
                }
                i += 1;
            }
            proof {
                assert(neighbors@.take(neighbors@.len() as int) =~= neighbors@);
            }
        }
        k += 1;
    }
    proof {
        assert(coords_of.take(n as int) =~= coords_of);
        assert forall|i: int| 0 <= i < coords_of.len() implies tm.in_bounds(
            #[trigger] coords_of[i],
        ) by {
            assert(coords_of[i] == pending@[i].0);
        }
        lemma_tick_run_effects(tm, st0, coords_of);
        assert forall|i: int| 0 <= i < pending@.len() implies !board.is_covered(
            (#[trigger] pending@[i]).0,
        ) by {
            assert(coords_of[i] == pending@[i].0);
            assert(coords_of.contains(pending@[i].0));
        }
        assert(exploded == exists|i: int|
            0 <= i < pending@.len() && tm.tile_of((#[trigger] pending@[i]).0) is Bomb) by {
            if exists|i: int| 0 <= i < coords_of.len() && tm.tile_of(#[trigger] coords_of[i])
                is Bomb {
                let i = choose|i: int|
                    0 <= i < coords_of.len() && tm.tile_of(coords_of[i]) is Bomb;
                assert(tm.tile_of(pending@[i].0) is Bomb);
            }
            if exists|i: int|
                0 <= i < pending@.len() && tm.tile_of((#[trigger] pending@[i]).0) is Bomb {
                let i = choose|i: int|
                    0 <= i < pending@.len() && tm.tile_of(pending@[i].0) is Bomb;
                assert(tm.tile_of(coords_of[i]) is Bomb);
            }
        }
    }
    TickOutcome { revealed, exploded, next }
}

} // verus!
