//! Player-facing state of one round: covered and marked cells, and the
//! reveal algorithm.

use vstd::prelude::*;

use crate::coordinates::{
    adjacent_c, coord, grid_area, idx_of, in_grid, in_grid_c, in_safe_zone,
    lemma_idx_of_in_range, lemma_idx_of_injective, Coordinates,
};
use crate::counting::{
    count_true, lemma_count_true_at_least_one, lemma_count_true_push, lemma_count_true_update,
    lemma_remove_distinct,
};
use crate::tile_map::{
    eligible_cell_count, lemma_no_bombs_all_zero, lemma_zero_cell_neighbors, zero_at, ConfigError,
    Tile, TileMap,
};

verus! {

/// The per-round player state: the tile map's ground truth plus which
/// cells are still covered, and which the player has flagged.
#[derive(Debug)]
pub struct Board {
    pub tile_map: TileMap,
    /// Covered flags, one per cell in row-major order; `true` means the
    /// cell is still hidden.
    pub covered_tiles: Vec<bool>,
    /// Number of `true` entries of `covered_tiles`.
    pub covered_count: usize,
    /// The player's flags, in the order they were placed; always a
    /// duplicate-free subset of the covered cells.
    pub marked_tiles: Vec<Coordinates>,
    /// The safe-start origin the round was generated around, if any.
    pub safe_start: Option<Coordinates>,
}

impl Board {
    /// The in-grid coordinate `d` is still covered.
    pub open spec fn covered_c(self, d: Coordinates) -> bool {
        self.covered_tiles@[idx_of(self.tile_map.width, d.x as int, d.y as int)]
    }

    /// The coordinate `d` is flagged.
    pub open spec fn marked_at(self, d: Coordinates) -> bool {
        self.marked_tiles@.contains(d)
    }

    /// Well-formedness of the round state.
    pub open spec fn wf(self) -> bool {
        &&& self.tile_map.wf()
        &&& self.covered_tiles@.len() == grid_area(self.tile_map.width, self.tile_map.height)
        &&& self.covered_count as int == count_true(self.covered_tiles@)
        &&& self.marked_tiles@.no_duplicates()
        &&& forall|i: int|
            0 <= i < self.marked_tiles@.len() ==> in_grid_c(
                self.tile_map.width,
                self.tile_map.height,
                #[trigger] self.marked_tiles@[i],
            ) && self.covered_c(self.marked_tiles@[i])
    }

    /// Flag indicator of the cell `(x, y)`: 1 when it is an in-grid
    /// flagged cell.
    pub open spec fn marked_ind(self, x: int, y: int) -> int {
        if in_grid(self.tile_map.width, self.tile_map.height, x, y) && self.marked_at(
            coord(x, y),
        ) {
            1
        } else {
            0
        }
    }

    /// Number of flagged cells among the up-to-8 in-grid neighbors of
    /// `(x, y)`.
    pub open spec fn marked_neighbor_count(self, x: int, y: int) -> int {
        self.marked_ind(x - 1, y - 1) + self.marked_ind(x, y - 1) + self.marked_ind(x + 1, y - 1)
            + self.marked_ind(x - 1, y) + self.marked_ind(x + 1, y) + self.marked_ind(
            x - 1,
            y + 1,
        ) + self.marked_ind(x, y + 1) + self.marked_ind(x + 1, y + 1)
    }

    /// The chord condition at `c`: the player has flagged as many of
    /// its neighbors as its stored adjacent-bomb count, and that count
    /// is positive.
    pub open spec fn chord_ok(self, c: Coordinates) -> bool {
        let n = self.marked_neighbor_count(c.x as int, c.y as int);
        n > 0 && n == self.tile_map.spec_bomb_count_at(c.x as int, c.y as int)
    }

    /// A chorded reveal at `c` would fire: `c` is an uncovered in-grid
    /// cell whose chord condition holds.
    pub open spec fn chord_ready(self, c: Coordinates) -> bool {
        in_grid_c(self.tile_map.width, self.tile_map.height, c) && !self.covered_c(c)
            && self.chord_ok(c)
    }

    /// `d` is a seed of a chorded reveal at `c`: a covered, unflagged
    /// in-grid neighbor.
    pub open spec fn chord_seed(self, c: Coordinates, d: Coordinates) -> bool {
        &&& in_grid_c(self.tile_map.width, self.tile_map.height, d)
        &&& adjacent_c(c, d)
        &&& self.covered_c(d)
        &&& !self.marked_at(d)
    }

    /// A reveal at `c` is rejected as a no-op: the coordinate is
    /// outside the grid, the cell is flagged, or it is already
    /// uncovered and its chord condition is unmet.
    pub open spec fn rejects(self, c: Coordinates) -> bool {
        ||| !in_grid_c(self.tile_map.width, self.tile_map.height, c)
        ||| self.marked_at(c)
        ||| (!self.covered_c(c) && !self.chord_ok(c))
    }
}

/// Result of a reveal intent.
#[derive(Debug)]
pub enum RevealOutcome {
    /// The intent was a no-op: out-of-grid coordinate, flagged cell,
    /// or an uncovered cell whose chord condition is unmet.
    Rejected,
    /// A bomb was uncovered; the round is lost.
    Detonated,
    /// The listed cells were uncovered, and whether the round is now
    /// complete.
    Uncovered { cells: Vec<Coordinates>, completed: bool },
}

/// Every listed cell was, before the reveal, a distinct covered,
/// unflagged, bomb-free in-grid cell.
pub open spec fn cells_valid(pre: Board, cells: Seq<Coordinates>) -> bool {
    &&& cells.no_duplicates()
    &&& forall|i: int|
        0 <= i < cells.len() ==> {
            let d = #[trigger] cells[i];
            &&& in_grid_c(pre.tile_map.width, pre.tile_map.height, d)
            &&& pre.covered_c(d)
            &&& !pre.marked_at(d)
            &&& !pre.tile_map.is_bomb(d.x as int, d.y as int)
        }
}

/// The reveal uncovered exactly the listed cells: afterwards a cell is
/// covered iff it was covered before and is not listed.
pub open spec fn uncovered_exactly(pre: Board, post: Board, cells: Seq<Coordinates>) -> bool {
    forall|d: Coordinates|
        in_grid_c(pre.tile_map.width, pre.tile_map.height, d) ==> ((#[trigger] post.covered_c(d))
            <==> (pre.covered_c(d) && !cells.contains(d)))
}

/// Every listed cell is a seed, or reached from a zero-count listed
/// cell next to it: the reveal uncovered nothing beyond the flood.
pub open spec fn flood_justified(m: TileMap, cells: Seq<Coordinates>, seeds: Seq<Coordinates>) -> bool {
    forall|i: int|
        0 <= i < cells.len() ==> (seeds.contains(#[trigger] cells[i]) || exists|e: Coordinates|
            #[trigger] cells.contains(e) && zero_at(m, e) && adjacent_c(e, cells[i]))
}

/// Every listed cell is a chord seed of `c`, or reached from a
/// zero-count listed cell next to it.
pub open spec fn chord_justified(pre: Board, c: Coordinates, cells: Seq<Coordinates>) -> bool {
    forall|i: int|
        0 <= i < cells.len() ==> (pre.chord_seed(c, #[trigger] cells[i]) || exists|e: Coordinates|
            #[trigger] cells.contains(e) && zero_at(pre.tile_map, e) && adjacent_c(e, cells[i]))
}

/// The listed set is flood-closed: every covered, unflagged neighbor
/// of a zero-count listed cell is listed too — the flood never stops
/// short.
pub open spec fn flood_closed(pre: Board, cells: Seq<Coordinates>) -> bool {
    forall|e: Coordinates, d: Coordinates|
        #![trigger cells.contains(e), adjacent_c(e, d)]
        cells.contains(e) && zero_at(pre.tile_map, e) && in_grid_c(
            pre.tile_map.width,
            pre.tile_map.height,
            d,
        ) && adjacent_c(e, d) && pre.covered_c(d) && !pre.marked_at(d) ==> cells.contains(d)
}

/// `b` carries exactly the same round state as `a`.
pub open spec fn same_state(a: Board, b: Board) -> bool {
    &&& b.tile_map == a.tile_map
    &&& b.covered_tiles@ == a.covered_tiles@
    &&& b.covered_count == a.covered_count
    &&& b.marked_tiles@ == a.marked_tiles@
    &&& b.safe_start == a.safe_start
}

/// Linear search for a coordinate in a list.
fn contains_coord(v: &Vec<Coordinates>, c: Coordinates) -> (r: bool)
    ensures
        r == v@.contains(c),
{
    let mut i: usize = 0;
    while i < v.len()
        invariant
            0 <= i <= v@.len(),
            forall|j: int| 0 <= j < i ==> v@[j] != c,
        decreases v@.len() - i,
    {
        if v[i] == c {
            return true;
        }
        i = i + 1;
    }
    proof {
        if v@.contains(c) {
            let j = choose|j: int| 0 <= j < v@.len() && v@[j] == c;
            assert(false);
        }
    }
    false
}

impl Board {
    /// Starts a round over a freshly generated tile map: every cell
    /// covered, no flags placed.
    pub fn new(tile_map: TileMap, safe_start: Option<Coordinates>) -> (b: Board)
        requires
            tile_map.wf(),
        ensures
            b.wf(),
            b.tile_map == tile_map,
            b.safe_start == safe_start,
            b.marked_tiles@.len() == 0,
            b.covered_count as int == grid_area(tile_map.width, tile_map.height),
            forall|d: Coordinates|
                in_grid_c(tile_map.width, tile_map.height, d) ==> #[trigger] b.covered_c(d),
    {
        proof {
            assert(tile_map.width as int * tile_map.height as int <= 0xffff_ffff)
                by (nonlinear_arith)
                requires
                    tile_map.width as int <= 0xffff,
                    tile_map.height as int <= 0xffff,
            {}
        }
        let area: usize = tile_map.width as usize * tile_map.height as usize;
        let mut covered: Vec<bool> = Vec::new();
        let mut i: usize = 0;
        while i < area
            invariant
                covered@.len() == i,
                i <= area,
                count_true(covered@) == i,
                forall|j: int| 0 <= j < i ==> #[trigger] covered@[j],
            decreases area - i,
        {
            proof {
                lemma_count_true_push(covered@, true);
            }
            covered.push(true);
            i = i + 1;
        }
        let b = Board {
            tile_map,
            covered_tiles: covered,
            covered_count: area,
            marked_tiles: Vec::new(),
            safe_start,
        };
        proof {
            assert forall|d: Coordinates|
                in_grid_c(b.tile_map.width, b.tile_map.height, d) implies #[trigger] b.covered_c(
                d,
            ) by {
                lemma_idx_of_in_range(b.tile_map.width, b.tile_map.height, d.x as int, d.y as int);
            }
        }
        b
    }

    /// The cell is inside the grid and still covered.
    pub fn is_covered(&self, c: Coordinates) -> (r: bool)
        requires
            self.wf(),
        ensures
            r == (in_grid_c(self.tile_map.width, self.tile_map.height, c) && self.covered_c(c)),
    {
        if c.x < self.tile_map.width && c.y < self.tile_map.height {
            proof {
                lemma_idx_of_in_range(self.tile_map.width, self.tile_map.height, c.x as int, c.y as int);
            }
            let i: usize = crate::tile_map::index_in(self.tile_map.width, c);
            self.covered_tiles[i]
        } else {
            false
        }
    }

    /// The cell carries a player flag.
    pub fn is_marked(&self, c: Coordinates) -> (r: bool)
        ensures
            r == self.marked_at(c),
    {
        contains_coord(&self.marked_tiles, c)
    }

    /// The round is complete: exactly the bomb cells remain covered.
    #[inline]
    #[must_use]
    pub fn is_completed(&self) -> (r: bool)
        requires
            self.wf(),
        ensures
            r <==> (count_true(self.covered_tiles@) == self.tile_map.bomb_count as int),
    {
        self.tile_map.bomb_count() as usize == self.covered_count
    }

    /// Number of flags the player has placed.
    pub fn marked_count(&self) -> (n: usize)
        ensures
            n == self.marked_tiles@.len(),
    {
        self.marked_tiles.len()
    }

    /// Number of cells still covered.
    pub fn covered_cells_count(&self) -> (n: usize)
        ensures
            n == self.covered_count,
    {
        self.covered_count
    }

    /// All bomb positions of the round, each exactly once.
    pub fn get_all_bomb_coordinates(&self) -> (r: Vec<Coordinates>)
        requires
            self.wf(),
        ensures
            r@.no_duplicates(),
            forall|d: Coordinates|
                #[trigger] r@.contains(d) <==> (in_grid_c(self.tile_map.width, self.tile_map.height, d)
                    && self.tile_map.is_bomb(d.x as int, d.y as int)),
    {
        self.tile_map.get_all_bomb_coordinates()
    }

    /// Uncovers one covered, unflagged cell.
    fn uncover_cell(&mut self, c: Coordinates)
        requires
            old(self).wf(),
            in_grid_c(old(self).tile_map.width, old(self).tile_map.height, c),
            old(self).covered_c(c),
            !old(self).marked_at(c),
        ensures
            final(self).wf(),
            final(self).tile_map == old(self).tile_map,
            final(self).marked_tiles@ == old(self).marked_tiles@,
            final(self).safe_start == old(self).safe_start,
            final(self).covered_tiles@ == old(self).covered_tiles@.update(
                idx_of(old(self).tile_map.width, c.x as int, c.y as int),
                false,
            ),
            final(self).covered_count == old(self).covered_count - 1,
            forall|d: Coordinates|
                in_grid_c(old(self).tile_map.width, old(self).tile_map.height, d) ==> ((
                #[trigger] final(self).covered_c(d)) <==> (old(self).covered_c(d) && d != c)),
    {
        let ghost pre = *self;
        proof {
            lemma_idx_of_in_range(self.tile_map.width, self.tile_map.height, c.x as int, c.y as int);
            lemma_count_true_at_least_one(
                self.covered_tiles@,
                idx_of(self.tile_map.width, c.x as int, c.y as int),
            );
        }
        let i: usize = crate::tile_map::index_in(self.tile_map.width, c);
        self.covered_tiles[i] = false;
        self.covered_count = self.covered_count - 1;
        proof {
            lemma_count_true_update(pre.covered_tiles@, i as int, false, pre.covered_tiles@.len() as int);
            assert forall|d: Coordinates|
                in_grid_c(pre.tile_map.width, pre.tile_map.height, d) implies ((
            #[trigger] self.covered_c(d)) <==> (pre.covered_c(d) && d != c)) by {
                lemma_idx_of_in_range(pre.tile_map.width, pre.tile_map.height, d.x as int, d.y as int);
                if d != c && idx_of(pre.tile_map.width, d.x as int, d.y as int) == i as int {
                    lemma_idx_of_injective(
                        pre.tile_map.width,
                        pre.tile_map.height,
                        d.x as int,
                        d.y as int,
                        c.x as int,
                        c.y as int,
                    );
                }
            }
            assert forall|j: int| 0 <= j < self.marked_tiles@.len() implies in_grid_c(
                self.tile_map.width,
                self.tile_map.height,
                #[trigger] self.marked_tiles@[j],
            ) && self.covered_c(self.marked_tiles@[j]) by {
                let m = pre.marked_tiles@[j];
                assert(pre.marked_tiles@.contains(m));
                assert(m != c);
            }
        }
    }

    /// Removes the flag of `coords`, when one is placed.
    fn unmark_tile(&mut self, coords: &Coordinates) -> (r: Option<Coordinates>)
        requires
            old(self).wf(),
        ensures
            final(self).wf(),
            final(self).tile_map == old(self).tile_map,
            final(self).covered_tiles@ == old(self).covered_tiles@,
            final(self).covered_count == old(self).covered_count,
            final(self).safe_start == old(self).safe_start,
            !old(self).marked_at(*coords) ==> r is None && final(self).marked_tiles@ == old(
                self,
            ).marked_tiles@,
            old(self).marked_at(*coords) ==> ({
                &&& r == Some(*coords)
                &&& final(self).marked_tiles@.len() == old(self).marked_tiles@.len() - 1
                &&& forall|d: Coordinates|
                    #[trigger] final(self).marked_at(d) <==> (old(self).marked_at(d) && d
                        != *coords)
            }),
    {
        let ghost pre = *old(self);
        let mut pos: usize = 0;
        let n: usize = self.marked_tiles.len();
        while pos < n
            invariant
                pre == *old(self),
                pre.wf(),
                *self == pre,
                n == pre.marked_tiles@.len(),
                0 <= pos <= n,
                forall|j: int| 0 <= j < pos ==> pre.marked_tiles@[j] != *coords,
            decreases n - pos,
        {
            if self.marked_tiles[pos] == *coords {
                let removed = self.marked_tiles.remove(pos);
                proof {
                    lemma_remove_distinct(pre.marked_tiles@, pos as int);
                    assert forall|j: int| 0 <= j < self.marked_tiles@.len() implies in_grid_c(
                        self.tile_map.width,
                        self.tile_map.height,
                        #[trigger] self.marked_tiles@[j],
                    ) && self.covered_c(self.marked_tiles@[j]) by {
                        assert(self.marked_tiles@.contains(self.marked_tiles@[j]));
                        assert(pre.marked_tiles@.contains(self.marked_tiles@[j]));
                        let jj = choose|jj: int|
                            0 <= jj < pre.marked_tiles@.len() && pre.marked_tiles@[jj]
                                == self.marked_tiles@[j];
                    }
                }
                return Some(removed);
            }
            pos = pos + 1;
        }
        proof {
            if pre.marked_at(*coords) {
                let j = choose|j: int|
                    0 <= j < pre.marked_tiles@.len() && pre.marked_tiles@[j] == *coords;
                assert(false);
            }
        }
        None
    }

    /// Flips covered-and-flagged to covered-and-unflagged and back;
    /// rejects cells that are not covered.  Returns the new flag
    /// state.
    pub fn try_toggle_mark(&mut self, coords: &Coordinates) -> (r: Option<bool>)
        requires
            old(self).wf(),
        ensures
            final(self).wf(),
            final(self).tile_map == old(self).tile_map,
            final(self).covered_tiles@ == old(self).covered_tiles@,
            final(self).covered_count == old(self).covered_count,
            final(self).safe_start == old(self).safe_start,
            !(in_grid_c(old(self).tile_map.width, old(self).tile_map.height, *coords) && old(
                self,
            ).covered_c(*coords)) ==> r is None && final(self).marked_tiles@ == old(
                self,
            ).marked_tiles@,
            (in_grid_c(old(self).tile_map.width, old(self).tile_map.height, *coords) && old(
                self,
            ).covered_c(*coords) && !old(self).marked_at(*coords)) ==> ({
                &&& r == Some(true)
                &&& final(self).marked_tiles@ == old(self).marked_tiles@.push(*coords)
                &&& forall|d: Coordinates|
                    #[trigger] final(self).marked_at(d) <==> (old(self).marked_at(d) || d
                        == *coords)
            }),
            (in_grid_c(old(self).tile_map.width, old(self).tile_map.height, *coords) && old(
                self,
            ).covered_c(*coords) && old(self).marked_at(*coords)) ==> ({
                &&& r == Some(false)
                &&& forall|d: Coordinates|
                    #[trigger] final(self).marked_at(d) <==> (old(self).marked_at(d) && d
                        != *coords)
            }),
    {
        if !self.is_covered(*coords) {
            return None;
        }
        if self.is_marked(*coords) {
            let ghost pre = *self;
            let _ = self.unmark_tile(coords);
            Some(false)
        } else {
            let ghost pre = *self;
            proof {
                crate::counting::lemma_push_no_duplicates(pre.marked_tiles@, *coords);
            }
            self.marked_tiles.push(*coords);
            proof {
                crate::counting::lemma_push_contains(pre.marked_tiles@, *coords);
                assert forall|j: int| 0 <= j < self.marked_tiles@.len() implies in_grid_c(
                    self.tile_map.width,
                    self.tile_map.height,
                    #[trigger] self.marked_tiles@[j],
                ) && self.covered_c(self.marked_tiles@[j]) by {
                    if j < pre.marked_tiles@.len() {
                        assert(self.marked_tiles@[j] == pre.marked_tiles@[j]);
                    } else {
                        assert(self.marked_tiles@[j] == *coords);
                    }
                }
            }
            Some(true)
        }
    }

    /// Number of flagged cells among the in-grid neighbors of
    /// `coords`.
    pub fn marked_safe_count_at(&self, coords: &Coordinates) -> (n: u8)
        requires
            self.wf(),
        ensures
            n as int == self.marked_neighbor_count(coords.x as int, coords.y as int),
    {
        let mut n: u8 = 0;
        let deltas: [(i8, i8); 8] = [
            (-1, -1),
            (0, -1),
            (1, -1),
            (-1, 0),
            (1, 0),
            (-1, 1),
            (0, 1),
            (1, 1),
        ];
        let c = *coords;
        let ghost gx: int = c.x as int;
        let ghost gy: int = c.y as int;
        let mut k: usize = 0;
        while k < 8
            invariant
                self.wf(),
                0 <= k <= 8,
                c == *coords,
                gx == c.x as int && gy == c.y as int,
                deltas@ =~= seq![
                    (-1i8, -1i8),
                    (0i8, -1i8),
                    (1i8, -1i8),
                    (-1i8, 0i8),
                    (1i8, 0i8),
                    (-1i8, 1i8),
                    (0i8, 1i8),
                    (1i8, 1i8),
                ],
                n <= k,
                n as int == self.partial_marked(gx, gy, k as int),
            decreases 8 - k,
        {
            let (dx, dy): (i8, i8) = deltas[k];
            match c.checked_offset(dx, dy, self.tile_map.width, self.tile_map.height) {
                Some(d) => {
                    if self.is_marked(d) {
                        n = n + 1;
                    }
                    proof {
                        assert(coord(d.x as int, d.y as int) == d);
                    }
                },
                None => {},
            }
            k = k + 1;
        }
        proof {
            assert(self.partial_marked(gx, gy, 8) == self.marked_neighbor_count(gx, gy));
        }
        n
    }

    /// The first `k` terms, in the fixed 8-direction order, of the
    /// flagged-neighbor sum of `(x, y)`.
    pub open spec fn partial_marked(self, x: int, y: int, k: int) -> int {
        (if k >= 1 {
            self.marked_ind(x - 1, y - 1)
        } else {
            0
        }) + (if k >= 2 {
            self.marked_ind(x, y - 1)
        } else {
            0
        }) + (if k >= 3 {
            self.marked_ind(x + 1, y - 1)
        } else {
            0
        }) + (if k >= 4 {
            self.marked_ind(x - 1, y)
        } else {
            0
        }) + (if k >= 5 {
            self.marked_ind(x + 1, y)
        } else {
            0
        }) + (if k >= 6 {
            self.marked_ind(x - 1, y + 1)
        } else {
            0
        }) + (if k >= 7 {
            self.marked_ind(x, y + 1)
        } else {
            0
        }) + (if k >= 8 {
            self.marked_ind(x + 1, y + 1)
        } else {
            0
        })
    }

    /// The chord condition at `coords`: as many flagged neighbors as
    /// its stored adjacent-bomb count, and that count is positive.
    pub fn marked_tile_is_safe(&self, coords: &Coordinates) -> (r: bool)
        requires
            self.wf(),
        ensures
            r == self.chord_ok(*coords),
    {
        let bomb_count = self.tile_map.bomb_count_at(*coords);
        let marked_neighbors = self.marked_safe_count_at(coords);
        marked_neighbors > 0 && bomb_count == marked_neighbors
    }

    /// The covered, unflagged neighbors of `coords`: the seeds a
    /// chorded reveal at `coords` would start from.
    pub fn surrounding_covered_tiles(&self, coords: &Coordinates) -> (r: Vec<Coordinates>)
        requires
            self.wf(),
        ensures
            r@.no_duplicates(),
            forall|d: Coordinates| #[trigger] r@.contains(d) <==> self.chord_seed(*coords, d),
    {
        let neigh = crate::tile_map::neighbors_in_grid(
            self.tile_map.width,
            self.tile_map.height,
            *coords,
        );
        let mut r: Vec<Coordinates> = Vec::new();
        let mut i: usize = 0;
        while i < neigh.len()
            invariant
                self.wf(),
                0 <= i <= neigh@.len(),
                neigh@.no_duplicates(),
                forall|d: Coordinates|
                    #[trigger] neigh@.contains(d) <==> (in_grid_c(
                        self.tile_map.width,
                        self.tile_map.height,
                        d,
                    ) && adjacent_c(*coords, d)),
                r@.no_duplicates(),
                forall|d: Coordinates|
                    #[trigger] r@.contains(d) <==> (self.chord_seed(*coords, d) && exists|j: int|
                        0 <= j < i && neigh@[j] == d),
            decreases neigh@.len() - i,
        {
            let d = neigh[i];
            if self.is_covered(d) && !self.is_marked(d) {
                let ghost r_old = r@;
                proof {
                    if r_old.contains(d) {
                        let j = choose|j: int| 0 <= j < i && neigh@[j] == d;
                        assert(neigh@[j] == neigh@[i as int]);
                        assert(false);
                    }
                    crate::counting::lemma_push_no_duplicates(r_old, d);
                }
                r.push(d);
                proof {
                    crate::counting::lemma_push_contains(r_old, d);
                    assert forall|e: Coordinates| #[trigger] r@.contains(e) implies (
                    self.chord_seed(*coords, e) && exists|j: int|
                        0 <= j < i + 1 && neigh@[j] == e) by {
                        assert(r_old.contains(e) || e == d);
                        if e == d {
                            assert(neigh@.contains(d));
                            assert(neigh@[i as int] == e);
                        } else {
                            let j = choose|j: int| 0 <= j < i && neigh@[j] == e;
                        }
                    }
                    assert forall|e: Coordinates|
                        (self.chord_seed(*coords, e) && exists|j: int|
                            0 <= j < i + 1 && neigh@[j] == e) implies #[trigger] r@.contains(e) by {
                        let j = choose|j: int| 0 <= j < i + 1 && neigh@[j] == e;
                        if j == i {
                            assert(e == d);
                        } else {
                            assert(r_old.contains(e));
                        }
                    }
                }
            } else {
                proof {
                    assert forall|e: Coordinates|
                        (self.chord_seed(*coords, e) && exists|j: int|
                            0 <= j < i + 1 && neigh@[j] == e) implies #[trigger] r@.contains(e) by {
                        let j = choose|j: int| 0 <= j < i + 1 && neigh@[j] == e;
                        if j == i {
                            assert(e == d);
                            assert(!self.chord_seed(*coords, e));
                        }
                    }
                }
            }
            i = i + 1;
        }
        proof {
            assert forall|d: Coordinates| self.chord_seed(*coords, d) implies #[trigger] r@.contains(
                d,
            ) by {
                assert(neigh@.contains(d));
                let j = choose|j: int| 0 <= j < neigh@.len() && neigh@[j] == d;
            }
        }
        r
    }

    /// The covered, unflagged neighbors of `coord`: the cells one
    /// propagation step from `coord` may expand to.  Flagged cells are
    /// excluded, so propagation never auto-uncovers a flag.
    pub fn adjacent_covered_tiles(&self, coord: Coordinates) -> (r: Vec<Coordinates>)
        requires
            self.wf(),
        ensures
            r@.no_duplicates(),
            forall|d: Coordinates|
                #[trigger] r@.contains(d) <==> (in_grid_c(
                    self.tile_map.width,
                    self.tile_map.height,
                    d,
                ) && adjacent_c(coord, d) && self.covered_c(d) && !self.marked_at(d)),
    {
        self.surrounding_covered_tiles(&coord)
    }

    /// The cells a reveal intent at `coords` would act on: nothing for
    /// a flagged or out-of-grid cell, the cell itself when covered,
    /// and the chord seeds when it is uncovered with its chord
    /// condition met.
    pub fn tile_to_uncover(&self, coords: &Coordinates) -> (r: Vec<Coordinates>)
        requires
            self.wf(),
        ensures
            (!in_grid_c(self.tile_map.width, self.tile_map.height, *coords) || self.marked_at(
                *coords,
            )) ==> r@.len() == 0,
            (in_grid_c(self.tile_map.width, self.tile_map.height, *coords) && !self.marked_at(
                *coords,
            ) && self.covered_c(*coords)) ==> r@ == seq![*coords],
            (in_grid_c(self.tile_map.width, self.tile_map.height, *coords) && !self.marked_at(
                *coords,
            ) && !self.covered_c(*coords) && self.chord_ok(*coords)) ==> (r@.no_duplicates()
                && forall|d: Coordinates| #[trigger] r@.contains(d) <==> self.chord_seed(
                *coords,
                d,
            )),
            (in_grid_c(self.tile_map.width, self.tile_map.height, *coords) && !self.marked_at(
                *coords,
            ) && !self.covered_c(*coords) && !self.chord_ok(*coords)) ==> r@.len() == 0,
    {
        if !(coords.x < self.tile_map.width && coords.y < self.tile_map.height) {
            Vec::new()
        } else if self.is_marked(*coords) {
            Vec::new()
        } else if self.is_covered(*coords) {
            let mut r: Vec<Coordinates> = Vec::new();
            r.push(*coords);
            proof {
                assert(r@ =~= seq![*coords]);
            }
            r
        } else if self.marked_tile_is_safe(coords) {
            self.surrounding_covered_tiles(coords)
        } else {
            Vec::new()
        }
    }

    /// Expands a reveal through zero-count cells: pops frontier cells
    /// from `stack`, uncovers every covered, unflagged neighbor, and
    /// pushes the newly uncovered zero-count cells back onto the
    /// frontier, until the frontier is empty.  Every uncovered cell is
    /// appended to `cells`.
    #[verifier::rlimit(60)]
    fn propagate(&mut self, cells: &mut Vec<Coordinates>, stack: &mut Vec<Coordinates>)
        requires
            old(self).wf(),
            old(cells)@.no_duplicates(),
            forall|i: int|
                0 <= i < old(cells)@.len() ==> {
                    let d = #[trigger] old(cells)@[i];
                    &&& in_grid_c(old(self).tile_map.width, old(self).tile_map.height, d)
                    &&& !old(self).covered_c(d)
                    &&& !old(self).marked_at(d)
                    &&& !old(self).tile_map.is_bomb(d.x as int, d.y as int)
                },
            forall|i: int|
                0 <= i < old(stack)@.len() ==> old(cells)@.contains(#[trigger] old(stack)@[i])
                    && zero_at(old(self).tile_map, old(stack)@[i]),
            forall|e: Coordinates|
                #[trigger] old(cells)@.contains(e) && zero_at(old(self).tile_map, e) ==> old(
                    stack,
                )@.contains(e),
        ensures
            final(self).wf(),
            final(self).tile_map == old(self).tile_map,
            final(self).marked_tiles@ == old(self).marked_tiles@,
            final(self).safe_start == old(self).safe_start,
            final(cells)@.no_duplicates(),
            old(cells)@.is_prefix_of(final(cells)@),
            old(stack)@.len() == 0 ==> final(cells)@ == old(cells)@,
            forall|i: int|
                0 <= i < final(cells)@.len() ==> {
                    let d = #[trigger] final(cells)@[i];
                    &&& in_grid_c(old(self).tile_map.width, old(self).tile_map.height, d)
                    &&& !final(self).covered_c(d)
                    &&& !old(self).tile_map.is_bomb(d.x as int, d.y as int)
                },
            forall|i: int|
                old(cells)@.len() <= i < final(cells)@.len() ==> old(self).covered_c(
                    #[trigger] final(cells)@[i],
                ) && !old(self).marked_at(final(cells)@[i]) && exists|e: Coordinates|
                    #[trigger] final(cells)@.contains(e) && zero_at(old(self).tile_map, e)
                        && adjacent_c(e, final(cells)@[i]),
            forall|d: Coordinates|
                in_grid_c(old(self).tile_map.width, old(self).tile_map.height, d) ==> ((
                #[trigger] final(self).covered_c(d)) <==> (old(self).covered_c(d)
                    && !final(cells)@.contains(d))),
            forall|e: Coordinates, d: Coordinates|
                #![trigger final(cells)@.contains(e), adjacent_c(e, d)]
                final(cells)@.contains(e) && zero_at(old(self).tile_map, e) && in_grid_c(
                    old(self).tile_map.width,
                    old(self).tile_map.height,
                    d,
                ) && adjacent_c(e, d) && !old(self).marked_at(d) ==> !final(self).covered_c(d),
    {
        let ghost pre = *old(self);
        let ghost cells0 = old(cells)@;
        while stack.len() > 0
            invariant
                pre == *old(self),
                pre.wf(),
                cells0 == old(cells)@,
                cells0.no_duplicates(),
                forall|i: int|
                    0 <= i < cells0.len() ==> {
                        let d = #[trigger] cells0[i];
                        &&& in_grid_c(pre.tile_map.width, pre.tile_map.height, d)
                        &&& !pre.covered_c(d)
                        &&& !pre.marked_at(d)
                        &&& !pre.tile_map.is_bomb(d.x as int, d.y as int)
                    },
                self.wf(),
                self.tile_map == pre.tile_map,
                self.marked_tiles@ == pre.marked_tiles@,
                self.safe_start == pre.safe_start,
                cells@.no_duplicates(),
                cells0.is_prefix_of(cells@),
                forall|i: int|
                    0 <= i < cells@.len() ==> {
                        let d = #[trigger] cells@[i];
                        &&& in_grid_c(pre.tile_map.width, pre.tile_map.height, d)
                        &&& !self.covered_c(d)
                        &&& !pre.tile_map.is_bomb(d.x as int, d.y as int)
                    },
                forall|i: int|
                    cells0.len() <= i < cells@.len() ==> pre.covered_c(#[trigger] cells@[i])
                        && !pre.marked_at(cells@[i]) && exists|e: Coordinates|
                        #[trigger] cells@.contains(e) && zero_at(pre.tile_map, e) && adjacent_c(
                            e,
                            cells@[i],
                        ),
                forall|d: Coordinates|
                    in_grid_c(pre.tile_map.width, pre.tile_map.height, d) ==> ((
                    #[trigger] self.covered_c(d)) <==> (pre.covered_c(d) && !cells@.contains(d))),
                forall|i: int|
                    0 <= i < stack@.len() ==> cells@.contains(#[trigger] stack@[i]) && zero_at(
                        pre.tile_map,
                        stack@[i],
                    ),
                forall|e2: Coordinates, d2: Coordinates|
                    #![trigger cells@.contains(e2), adjacent_c(e2, d2)]
                    cells@.contains(e2) && zero_at(pre.tile_map, e2) && !stack@.contains(e2)
                        && in_grid_c(pre.tile_map.width, pre.tile_map.height, d2) && adjacent_c(
                        e2,
                        d2,
                    ) && !pre.marked_at(d2) ==> !self.covered_c(d2),
                old(stack)@.len() == 0 ==> stack@.len() == 0 && cells@ == cells0,
            decreases 9 * count_true(self.covered_tiles@) + stack@.len(),
        {
            let ghost stack_pre = stack@;
            let e: Coordinates = stack.pop().unwrap();
            proof {
                assert(stack_pre[stack_pre.len() - 1] == e);
                assert(cells@.contains(e) && zero_at(pre.tile_map, e));
                assert forall|e2: Coordinates, d2: Coordinates|
                    cells@.contains(e2) && zero_at(pre.tile_map, e2) && !stack@.contains(e2) && e2
                        != e && in_grid_c(pre.tile_map.width, pre.tile_map.height, d2)
                        && #[trigger] adjacent_c(e2, d2) && !pre.marked_at(d2) implies !self.covered_c(
                    d2,
                ) by {
                    if stack_pre.contains(e2) {
                        let idx = choose|idx: int|
                            0 <= idx < stack_pre.len() && stack_pre[idx] == e2;
                        if idx < stack_pre.len() - 1 {
                            assert(stack@[idx] == e2);
                            assert(stack@.contains(e2));
                        }
                        assert(false);
                    }
                }
            }
            let ghost m0: int = 9 * count_true(self.covered_tiles@) + stack@.len();
            let neigh = crate::tile_map::neighbors_in_grid(
                self.tile_map.width,
                self.tile_map.height,
                e,
            );
            let mut j: usize = 0;
            while j < neigh.len()
                invariant
                    pre == *old(self),
                    pre.wf(),
                    cells0 == old(cells)@,
                    cells0.no_duplicates(),
                    forall|i: int|
                        0 <= i < cells0.len() ==> {
                            let d = #[trigger] cells0[i];
                            &&& in_grid_c(pre.tile_map.width, pre.tile_map.height, d)
                            &&& !pre.covered_c(d)
                            &&& !pre.marked_at(d)
                            &&& !pre.tile_map.is_bomb(d.x as int, d.y as int)
                        },
                    self.wf(),
                    self.tile_map == pre.tile_map,
                    self.marked_tiles@ == pre.marked_tiles@,
                    self.safe_start == pre.safe_start,
                    cells@.no_duplicates(),
                    cells0.is_prefix_of(cells@),
                    forall|i: int|
                        0 <= i < cells@.len() ==> {
                            let d = #[trigger] cells@[i];
                            &&& in_grid_c(pre.tile_map.width, pre.tile_map.height, d)
                            &&& !self.covered_c(d)
                            &&& !pre.tile_map.is_bomb(d.x as int, d.y as int)
                        },
                    forall|i: int|
                        cells0.len() <= i < cells@.len() ==> pre.covered_c(#[trigger] cells@[i])
                            && !pre.marked_at(cells@[i]) && exists|e2: Coordinates|
                            #[trigger] cells@.contains(e2) && zero_at(pre.tile_map, e2)
                                && adjacent_c(e2, cells@[i]),
                    forall|d: Coordinates|
                        in_grid_c(pre.tile_map.width, pre.tile_map.height, d) ==> ((
                        #[trigger] self.covered_c(d)) <==> (pre.covered_c(d) && !cells@.contains(
                            d,
                        ))),
                    forall|i: int|
                        0 <= i < stack@.len() ==> cells@.contains(#[trigger] stack@[i]) && zero_at(
                            pre.tile_map,
                            stack@[i],
                        ),
                    cells@.contains(e),
                    zero_at(pre.tile_map, e),
                    0 <= j <= neigh@.len(),
                    neigh@.no_duplicates(),
                    forall|d: Coordinates|
                        #[trigger] neigh@.contains(d) <==> (in_grid_c(
                            pre.tile_map.width,
                            pre.tile_map.height,
                            d,
                        ) && adjacent_c(e, d)),
                    forall|jj: int|
                        0 <= jj < j ==> (!self.covered_c(#[trigger] neigh@[jj]) || pre.marked_at(
                            neigh@[jj],
                        )),
                    forall|e2: Coordinates, d2: Coordinates|
                        #![trigger cells@.contains(e2), adjacent_c(e2, d2)]
                        cells@.contains(e2) && zero_at(pre.tile_map, e2) && !stack@.contains(e2)
                            && e2 != e && in_grid_c(pre.tile_map.width, pre.tile_map.height, d2)
                            && adjacent_c(e2, d2) && !pre.marked_at(d2) ==> !self.covered_c(d2),
                    9 * count_true(self.covered_tiles@) + stack@.len() <= m0,
                decreases neigh@.len() - j,
            {
                let d = neigh[j];
                let ghost it_cells = cells@;
                let ghost it_stack = stack@;
                let ghost it_board = *self;
                proof {
                    assert(neigh@.contains(d));
                }
                if self.is_covered(d) && !self.is_marked(d) {
                    proof {
                        lemma_zero_cell_neighbors(pre.tile_map, e, d);
                        assert(!cells@.contains(d));
                    }
                    self.uncover_cell(d);
                    proof {
                        crate::counting::lemma_push_no_duplicates(it_cells, d);
                    }
                    cells.push(d);
                    proof {
                        crate::counting::lemma_push_contains(it_cells, d);
                        assert forall|d2: Coordinates|
                            in_grid_c(pre.tile_map.width, pre.tile_map.height, d2) implies ((
                        #[trigger] self.covered_c(d2)) <==> (pre.covered_c(d2) && !cells@.contains(
                            d2,
                        ))) by {
                            assert(self.covered_c(d2) == (it_board.covered_c(d2) && d2 != d));
                        }
                    }
                    let zero: bool = self.tile_map.bomb_count_at(d) == 0;
                    if zero {
                        let ghost stack_mid = stack@;
                        stack.push(d);
                        proof {
                            crate::counting::lemma_push_contains(stack_mid, d);
                            assert(zero_at(pre.tile_map, d));
                        }
                    } else {
                        proof {
                            assert(!zero_at(pre.tile_map, d));
                        }
                    }
                    proof {
                        assert forall|e2: Coordinates, d2: Coordinates|
                            cells@.contains(e2) && zero_at(pre.tile_map, e2) && !stack@.contains(
                                e2,
                            ) && e2 != e && in_grid_c(pre.tile_map.width, pre.tile_map.height, d2)
                                && #[trigger] adjacent_c(e2, d2) && !pre.marked_at(d2) implies !self.covered_c(
                            d2,
                        ) by {
                            assert(it_cells.contains(e2) || e2 == d);
                            if e2 == d {
                                assert(zero_at(pre.tile_map, d));
                                assert(pre.tile_map.spec_bomb_count_at(d.x as int, d.y as int)
                                    == 0);
                                assert(zero);
                                assert(stack@[stack@.len() - 1] == d);
                                assert(stack@.contains(d));
                                assert(false);
                            } else {
                                assert(!it_stack.contains(e2));
                                assert(!it_board.covered_c(d2));
                                assert(self.covered_c(d2) == (it_board.covered_c(d2) && d2 != d));
                            }
                        }
                        assert forall|jj: int|
                            0 <= jj < j + 1 implies (!self.covered_c(#[trigger] neigh@[jj])
                                || pre.marked_at(neigh@[jj])) by {
                            if jj < j {
                                assert(!it_board.covered_c(neigh@[jj]) || pre.marked_at(
                                    neigh@[jj],
                                ));
                                if !it_board.covered_c(neigh@[jj]) {
                                    assert(neigh@.contains(neigh@[jj]));
                                    assert(self.covered_c(neigh@[jj]) == (it_board.covered_c(
                                        neigh@[jj],
                                    ) && neigh@[jj] != d));
                                }
                            } else {
                                assert(!self.covered_c(d));
                            }
                        }
                    }
                } else {
                    proof {
                        assert forall|jj: int|
                            0 <= jj < j + 1 implies (!self.covered_c(#[trigger] neigh@[jj])
                                || pre.marked_at(neigh@[jj])) by {
                            if jj == j {
                                assert(!self.covered_c(d) || self.marked_at(d));
                                assert(self.marked_at(d) == pre.marked_at(d));
                            }
                        }
                    }
                }
                j = j + 1;
            }
            proof {
                assert forall|e2: Coordinates, d2: Coordinates|
                    cells@.contains(e2) && zero_at(pre.tile_map, e2) && !stack@.contains(e2)
                        && in_grid_c(pre.tile_map.width, pre.tile_map.height, d2) && #[trigger] adjacent_c(
                    e2,
                    d2,
                ) && !pre.marked_at(d2) implies !self.covered_c(d2) by {
                    if e2 == e {
                        assert(neigh@.contains(d2));
                        let jj = choose|jj: int| 0 <= jj < neigh@.len() && neigh@[jj] == d2;
                    }
                }
            }
        }
        proof {
            assert forall|i: int|
                cells0.len() <= i < cells@.len() implies pre.covered_c(#[trigger] cells@[i])
                    && !pre.marked_at(cells@[i]) && exists|e: Coordinates|
                    #[trigger] cells@.contains(e) && zero_at(pre.tile_map, e) && adjacent_c(
                        e,
                        cells@[i],
                    ) by {}
        }
    }

    /// Force-uncovers a covered cell, removing its flag first if one
    /// is placed; used by the end-of-round bulk reveal.  Returns the
    /// uncovered coordinate.
    pub fn try_uncover_tile(&mut self, coords: &Coordinates) -> (r: Option<Coordinates>)
        requires
            old(self).wf(),
        ensures
            final(self).wf(),
            final(self).tile_map == old(self).tile_map,
            final(self).safe_start == old(self).safe_start,
            !(in_grid_c(old(self).tile_map.width, old(self).tile_map.height, *coords) && old(
                self,
            ).covered_c(*coords)) ==> r is None && same_state(*old(self), *final(self)),
            (in_grid_c(old(self).tile_map.width, old(self).tile_map.height, *coords) && old(
                self,
            ).covered_c(*coords)) ==> ({
                &&& r == Some(*coords)
                &&& final(self).covered_count == old(self).covered_count - 1
                &&& forall|d: Coordinates|
                    in_grid_c(old(self).tile_map.width, old(self).tile_map.height, d) ==> ((
                    #[trigger] final(self).covered_c(d)) <==> (old(self).covered_c(d) && d
                        != *coords))
                &&& forall|d: Coordinates|
                    #[trigger] final(self).marked_at(d) <==> (old(self).marked_at(d) && d
                        != *coords)
            }),
    {
        if !self.is_covered(*coords) {
            return None;
        }
        if self.is_marked(*coords) {
            let _ = self.unmark_tile(coords);
        }
        let ghost mid = *self;
        self.uncover_cell(*coords);
        proof {
            assert(self.marked_tiles@ == mid.marked_tiles@);
            assert forall|d: Coordinates| #[trigger] self.marked_at(d) == mid.marked_at(d) by {}
        }
        Some(*coords)
    }

    /// The end-of-round bulk reveal: uncovers every bomb cell for
    /// display, removing any flag placed on one; every other cell
    /// keeps its covered and flagged state.
    pub fn reveal_all_bombs(&mut self)
        requires
            old(self).wf(),
        ensures
            final(self).wf(),
            final(self).tile_map == old(self).tile_map,
            final(self).safe_start == old(self).safe_start,
            forall|d: Coordinates|
                in_grid_c(old(self).tile_map.width, old(self).tile_map.height, d) ==> ((
                #[trigger] final(self).covered_c(d)) <==> (old(self).covered_c(d) && !old(
                    self,
                ).tile_map.is_bomb(d.x as int, d.y as int))),
            forall|d: Coordinates|
                #[trigger] final(self).marked_at(d) <==> (old(self).marked_at(d) && !(in_grid_c(
                    old(self).tile_map.width,
                    old(self).tile_map.height,
                    d,
                ) && old(self).tile_map.is_bomb(d.x as int, d.y as int))),
    {
        let ghost pre = *old(self);
        let bombs = self.tile_map.get_all_bomb_coordinates();
        let mut i: usize = 0;
        while i < bombs.len()
            invariant
                pre == *old(self),
                pre.wf(),
                self.wf(),
                self.tile_map == pre.tile_map,
                self.safe_start == pre.safe_start,
                0 <= i <= bombs@.len(),
                bombs@.no_duplicates(),
                forall|d: Coordinates|
                    #[trigger] bombs@.contains(d) <==> (in_grid_c(
                        pre.tile_map.width,
                        pre.tile_map.height,
                        d,
                    ) && pre.tile_map.is_bomb(d.x as int, d.y as int)),
                forall|d: Coordinates|
                    in_grid_c(pre.tile_map.width, pre.tile_map.height, d) ==> ((
                    #[trigger] self.covered_c(d)) <==> (pre.covered_c(d) && !bombs@.subrange(
                        0,
                        i as int,
                    ).contains(d))),
                forall|d: Coordinates|
                    #[trigger] self.marked_at(d) <==> (pre.marked_at(d) && !bombs@.subrange(
                        0,
                        i as int,
                    ).contains(d)),
            decreases bombs@.len() - i,
        {
            let b = bombs[i];
            proof {
                assert(bombs@.contains(b));
                if bombs@.subrange(0, i as int).contains(b) {
                    let t = choose|t: int| 0 <= t < i && bombs@.subrange(0, i as int)[t] == b;
                    assert(bombs@[t] == bombs@[i as int]);
                    assert(false);
                }
            }
            let ghost it = *self;
            let _ = self.try_uncover_tile(&b);
            proof {
                assert(bombs@.subrange(0, i as int + 1) =~= bombs@.subrange(0, i as int).push(b));
                crate::counting::lemma_push_contains(bombs@.subrange(0, i as int), b);
                if it.covered_c(b) {
                    assert forall|d: Coordinates|
                        in_grid_c(pre.tile_map.width, pre.tile_map.height, d) implies ((
                    #[trigger] self.covered_c(d)) <==> (pre.covered_c(d) && !bombs@.subrange(
                        0,
                        i as int + 1,
                    ).contains(d))) by {
                        assert(self.covered_c(d) == (it.covered_c(d) && d != b));
                    }
                    assert forall|d: Coordinates| #[trigger] self.marked_at(d) <==> (pre.marked_at(
                        d,
                    ) && !bombs@.subrange(0, i as int + 1).contains(d)) by {
                        assert(self.marked_at(d) == (it.marked_at(d) && d != b));
                    }
                } else {
                    assert(self.marked_tiles@ == it.marked_tiles@);
                    if it.marked_at(b) {
                        let j = choose|j: int|
                            0 <= j < it.marked_tiles@.len() && it.marked_tiles@[j] == b;
                        assert(it.covered_c(it.marked_tiles@[j]));
                        assert(false);
                    }
                    assert(!pre.covered_c(b));
                    assert forall|d: Coordinates|
                        in_grid_c(pre.tile_map.width, pre.tile_map.height, d) implies ((
                    #[trigger] self.covered_c(d)) <==> (pre.covered_c(d) && !bombs@.subrange(
                        0,
                        i as int + 1,
                    ).contains(d))) by {
                        assert(self.covered_c(d) == it.covered_c(d));
                    }
                    assert forall|d: Coordinates| #[trigger] self.marked_at(d) <==> (pre.marked_at(
                        d,
                    ) && !bombs@.subrange(0, i as int + 1).contains(d)) by {
                        assert(self.marked_at(d) == it.marked_at(d));
                        if d == b {
                            assert(!it.marked_at(b));
                        }
                    }
                }
            }
            i = i + 1;
        }
        proof {
            assert(bombs@.subrange(0, bombs@.len() as int) =~= bombs@);
        }
    }

    /// The central player operation.  Rejects flagged and out-of-grid
    /// cells.  On a covered cell, uncovers it: a bomb detonates alone;
    /// a safe cell floods through zero-count neighbors.  On an
    /// uncovered cell whose chord condition is met, uncovers every
    /// covered, unflagged neighbor and floods from the zero-count
    /// ones, trusting the player's flags; a flagged-over bomb missed
    /// this way detonates.
    #[verifier::rlimit(80)]
    pub fn reveal_at(&mut self, c: Coordinates) -> (r: RevealOutcome)
        requires
            old(self).wf(),
        ensures
            final(self).wf(),
            final(self).tile_map == old(self).tile_map,
            final(self).marked_tiles@ == old(self).marked_tiles@,
            final(self).safe_start == old(self).safe_start,
            old(self).rejects(c) ==> (r is Rejected && same_state(*old(self), *final(self))),
            (in_grid_c(old(self).tile_map.width, old(self).tile_map.height, c) && old(
                self,
            ).covered_c(c) && !old(self).marked_at(c) && old(self).tile_map.is_bomb(
                c.x as int,
                c.y as int,
            )) ==> (r is Detonated && uncovered_exactly(*old(self), *final(self), seq![c])
                && final(self).covered_count == old(self).covered_count - 1),
            (in_grid_c(old(self).tile_map.width, old(self).tile_map.height, c) && old(
                self,
            ).covered_c(c) && !old(self).marked_at(c) && !old(self).tile_map.is_bomb(
                c.x as int,
                c.y as int,
            )) ==> (r matches RevealOutcome::Uncovered { cells, completed } && {
                &&& cells@.contains(c)
                &&& cells_valid(*old(self), cells@)
                &&& uncovered_exactly(*old(self), *final(self), cells@)
                &&& flood_justified(old(self).tile_map, cells@, seq![c])
                &&& flood_closed(*old(self), cells@)
                &&& (old(self).tile_map.spec_bomb_count_at(c.x as int, c.y as int) > 0 ==> cells@
                    == seq![c])
                &&& completed == (count_true(final(self).covered_tiles@) == old(
                    self,
                ).tile_map.bomb_count as int)
            }),
            (old(self).chord_ready(c) && (exists|d: Coordinates|
                #[trigger] old(self).chord_seed(c, d) && old(self).tile_map.is_bomb(
                    d.x as int,
                    d.y as int,
                ))) ==> (r is Detonated && forall|d: Coordinates|
                in_grid_c(old(self).tile_map.width, old(self).tile_map.height, d) ==> ((
                #[trigger] final(self).covered_c(d)) <==> (old(self).covered_c(d) && !old(
                    self,
                ).chord_seed(c, d)))),
            (old(self).chord_ready(c) && (forall|d: Coordinates|
                #[trigger] old(self).chord_seed(c, d) ==> !old(self).tile_map.is_bomb(
                    d.x as int,
                    d.y as int,
                ))) ==> (r matches RevealOutcome::Uncovered { cells, completed } && {
                &&& forall|d: Coordinates|
                    #[trigger] old(self).chord_seed(c, d) ==> cells@.contains(d)
                &&& cells_valid(*old(self), cells@)
                &&& uncovered_exactly(*old(self), *final(self), cells@)
                &&& chord_justified(*old(self), c, cells@)
                &&& flood_closed(*old(self), cells@)
                &&& completed == (count_true(final(self).covered_tiles@) == old(
                    self,
                ).tile_map.bomb_count as int)
            }),
    {
        let ghost pre = *old(self);
        if !(c.x < self.tile_map.width && c.y < self.tile_map.height) {
            return RevealOutcome::Rejected;
        }
        if self.is_marked(c) {
            return RevealOutcome::Rejected;
        }
        if self.is_covered(c) {
            if self.tile_map.is_bomb_at(c) {
                self.uncover_cell(c);
                proof {
                    assert forall|d: Coordinates| seq![c].contains(d) <==> d == c by {
                        if seq![c].contains(d) {
                            assert(seq![c][0] == d);
                        } else if d == c {
                            assert(seq![c][0] == d);
                        }
                    }
                }
                return RevealOutcome::Detonated;
            }
            self.uncover_cell(c);
            let ghost mid = *self;
            let mut cells: Vec<Coordinates> = Vec::new();
            cells.push(c);
            let mut stack: Vec<Coordinates> = Vec::new();
            let nc: u8 = self.tile_map.bomb_count_at(c);
            if nc == 0 {
                stack.push(c);
            }
            proof {
                assert(cells@ =~= seq![c]);
                assert forall|i: int|
                    0 <= i < cells@.len() implies {
                    let d = #[trigger] cells@[i];
                    &&& in_grid_c(mid.tile_map.width, mid.tile_map.height, d)
                    &&& !mid.covered_c(d)
                    &&& !mid.marked_at(d)
                    &&& !mid.tile_map.is_bomb(d.x as int, d.y as int)
                } by {
                    assert(cells@[i] == c);
                }
                if nc == 0 {
                    assert(mid.tile_map.tile_at(c.x as int, c.y as int) == Tile::Safe(0u8));
                    assert(stack@ =~= seq![c]);
                }
                assert forall|e: Coordinates|
                    #[trigger] cells@.contains(e) && zero_at(mid.tile_map, e) implies stack@.contains(
                    e,
                ) by {
                    assert(e == c);
                    assert(mid.tile_map.spec_bomb_count_at(c.x as int, c.y as int) == 0);
                    assert(stack@[0] == c);
                }
            }
            self.propagate(&mut cells, &mut stack);
            let completed = self.is_completed();
            proof {
                let fin = *self;
                let cs = cells@;
                assert(cs.subrange(0, 1)[0] == c);
                assert(cs[0] == c);
                assert(cs.contains(c));
                assert forall|i: int|
                    0 <= i < cs.len() implies {
                    let d = #[trigger] cs[i];
                    &&& in_grid_c(pre.tile_map.width, pre.tile_map.height, d)
                    &&& pre.covered_c(d)
                    &&& !pre.marked_at(d)
                    &&& !pre.tile_map.is_bomb(d.x as int, d.y as int)
                } by {
                    if i > 0 {
                        assert(mid.covered_c(cs[i]) && !mid.marked_at(cs[i]));
                        assert(mid.covered_c(cs[i]) == (pre.covered_c(cs[i]) && cs[i] != c));
                        assert(mid.marked_at(cs[i]) == pre.marked_at(cs[i]));
                    }
                }
                assert forall|d: Coordinates|
                    in_grid_c(pre.tile_map.width, pre.tile_map.height, d) implies ((
                #[trigger] fin.covered_c(d)) <==> (pre.covered_c(d) && !cs.contains(d))) by {
                    assert(fin.covered_c(d) == (mid.covered_c(d) && !cs.contains(d)));
                    assert(mid.covered_c(d) == (pre.covered_c(d) && d != c));
                    if d == c {
                        assert(cs.contains(c));
                    }
                }
                assert forall|i: int|
                    0 <= i < cs.len() implies (seq![c].contains(#[trigger] cs[i]) || exists|
                    e: Coordinates,
                |
                    #[trigger] cs.contains(e) && zero_at(pre.tile_map, e) && adjacent_c(
                        e,
                        cs[i],
                    )) by {
                    if i == 0 {
                        assert(seq![c][0] == cs[0]);
                        assert(seq![c].contains(cs[0]));
                    }
                }
                assert forall|e: Coordinates, d: Coordinates|
                    cs.contains(e) && zero_at(pre.tile_map, e) && in_grid_c(
                        pre.tile_map.width,
                        pre.tile_map.height,
                        d,
                    ) && #[trigger] adjacent_c(e, d) && pre.covered_c(d) && !pre.marked_at(d)
                    implies cs.contains(d) by {
                    assert(!pre.marked_at(d) == !mid.marked_at(d));
                    assert(!fin.covered_c(d));
                    if !cs.contains(d) {
                        assert(fin.covered_c(d) == (mid.covered_c(d) && !cs.contains(d)));
                        assert(mid.covered_c(d) == (pre.covered_c(d) && d != c));
                        assert(d != c);
                        assert(false);
                    }
                }
                if pre.tile_map.spec_bomb_count_at(c.x as int, c.y as int) > 0 {
                    assert(nc > 0);
                    assert(stack@.len() == 0 || !(nc == 0));
                    assert(cs == cells@);
                    assert(cs =~= seq![c]);
                }
            }
            return RevealOutcome::Uncovered { cells, completed };
        }
        if !self.marked_tile_is_safe(&c) {
            return RevealOutcome::Rejected;
        }
        let seeds = self.surrounding_covered_tiles(&c);
        let ghost sq = seeds@;
        let mut any_bomb = false;
        let mut i: usize = 0;
        while i < seeds.len()
            invariant
                pre == *old(self),
                pre.wf(),
                seeds@ == sq,
                sq.no_duplicates(),
                forall|d: Coordinates| #[trigger] sq.contains(d) <==> pre.chord_seed(c, d),
                0 <= i <= sq.len(),
                self.wf(),
                self.tile_map == pre.tile_map,
                self.marked_tiles@ == pre.marked_tiles@,
                self.safe_start == pre.safe_start,
                forall|d: Coordinates|
                    in_grid_c(pre.tile_map.width, pre.tile_map.height, d) ==> ((
                    #[trigger] self.covered_c(d)) <==> (pre.covered_c(d) && !sq.subrange(
                        0,
                        i as int,
                    ).contains(d))),
                any_bomb <==> (exists|jj: int|
                    0 <= jj < i && pre.tile_map.is_bomb(
                        (#[trigger] sq[jj]).x as int,
                        sq[jj].y as int,
                    )),
            decreases sq.len() - i,
        {
            let d = seeds[i];
            proof {
                assert(sq.contains(d));
                assert(pre.chord_seed(c, d));
                if sq.subrange(0, i as int).contains(d) {
                    let t = choose|t: int| 0 <= t < i && sq.subrange(0, i as int)[t] == d;
                    assert(sq[t] == sq[i as int]);
                    assert(false);
                }
                assert(self.marked_at(d) == pre.marked_at(d));
            }
            let ghost b_old = *self;
            self.uncover_cell(d);
            if self.tile_map.is_bomb_at(d) {
                any_bomb = true;
            }
            proof {
                assert(sq.subrange(0, i as int + 1) =~= sq.subrange(0, i as int).push(d));
                crate::counting::lemma_push_contains(sq.subrange(0, i as int), d);
                assert forall|d2: Coordinates|
                    in_grid_c(pre.tile_map.width, pre.tile_map.height, d2) implies ((
                #[trigger] self.covered_c(d2)) <==> (pre.covered_c(d2) && !sq.subrange(
                    0,
                    i as int + 1,
                ).contains(d2))) by {
                    assert(self.covered_c(d2) == (b_old.covered_c(d2) && d2 != d));
                }
                if pre.tile_map.is_bomb(d.x as int, d.y as int) {
                    assert(pre.tile_map.is_bomb((sq[i as int]).x as int, sq[i as int].y as int));
                }
            }
            i = i + 1;
        }
        proof {
            assert(sq.subrange(0, sq.len() as int) =~= sq);
        }
        if any_bomb {
            proof {
                let jj = choose|jj: int|
                    0 <= jj < sq.len() && pre.tile_map.is_bomb(
                        (#[trigger] sq[jj]).x as int,
                        sq[jj].y as int,
                    );
                assert(sq.contains(sq[jj]));
                assert(pre.chord_seed(c, sq[jj]));
                assert forall|d: Coordinates|
                    in_grid_c(pre.tile_map.width, pre.tile_map.height, d) implies ((
                #[trigger] self.covered_c(d)) <==> (pre.covered_c(d) && !pre.chord_seed(
                    c,
                    d,
                ))) by {
                    if sq.contains(d) {
                        assert(pre.chord_seed(c, d));
                    }
                }
            }
            return RevealOutcome::Detonated;
        }
        let mut cells = seeds;
        let mut stack: Vec<Coordinates> = Vec::new();
        let mut t: usize = 0;
        proof {
            assert forall|d: Coordinates| #[trigger] sq.contains(d) implies !pre.tile_map.is_bomb(
                d.x as int,
                d.y as int,
            ) by {
                let jj = choose|jj: int| 0 <= jj < sq.len() && sq[jj] == d;
                if pre.tile_map.is_bomb(d.x as int, d.y as int) {
                    assert(pre.tile_map.is_bomb((sq[jj]).x as int, sq[jj].y as int));
                }
            }
        }
        while t < cells.len()
            invariant
                pre == *old(self),
                pre.wf(),
                cells@ == sq,
                sq.no_duplicates(),
                forall|d: Coordinates| #[trigger] sq.contains(d) <==> pre.chord_seed(c, d),
                forall|d: Coordinates|
                    #[trigger] sq.contains(d) ==> !pre.tile_map.is_bomb(d.x as int, d.y as int),
                0 <= t <= sq.len(),
                self.wf(),
                self.tile_map == pre.tile_map,
                self.marked_tiles@ == pre.marked_tiles@,
                self.safe_start == pre.safe_start,
                forall|d: Coordinates|
                    in_grid_c(pre.tile_map.width, pre.tile_map.height, d) ==> ((
                    #[trigger] self.covered_c(d)) <==> (pre.covered_c(d) && !sq.contains(d))),
                forall|u: int|
                    0 <= u < stack@.len() ==> sq.contains(#[trigger] stack@[u]) && zero_at(
                        pre.tile_map,
                        stack@[u],
                    ),
                forall|u: int|
                    0 <= u < t && zero_at(pre.tile_map, #[trigger] sq[u]) ==> stack@.contains(
                        sq[u],
                    ),
            decreases sq.len() - t,
        {
            let d = cells[t];
            let zero: bool = self.tile_map.bomb_count_at(d) == 0;
            if zero {
                let ghost stack_mid = stack@;
                proof {
                    assert(sq.contains(d));
                    assert(!pre.tile_map.is_bomb(d.x as int, d.y as int));
                    assert(zero_at(pre.tile_map, d));
                }
                stack.push(d);
                proof {
                    crate::counting::lemma_push_contains(stack_mid, d);
                    assert forall|u: int|
                        0 <= u < t + 1 && zero_at(pre.tile_map, #[trigger] sq[u]) implies stack@.contains(
                        sq[u],
                    ) by {
                        if u == t {
                            assert(stack@[stack@.len() - 1] == d);
                        } else {
                            assert(stack_mid.contains(sq[u]));
                        }
                    }
                }
            } else {
                proof {
                    assert forall|u: int|
                        0 <= u < t + 1 && zero_at(pre.tile_map, #[trigger] sq[u]) implies stack@.contains(
                        sq[u],
                    ) by {
                        if u == t {
                            assert(sq[u] == d);
                            assert(!zero_at(pre.tile_map, d));
                        }
                    }
                }
            }
            t = t + 1;
        }
        let ghost mid2 = *self;
        proof {
            assert forall|ii: int|
                0 <= ii < cells@.len() implies {
                let d = #[trigger] cells@[ii];
                &&& in_grid_c(mid2.tile_map.width, mid2.tile_map.height, d)
                &&& !mid2.covered_c(d)
                &&& !mid2.marked_at(d)
                &&& !mid2.tile_map.is_bomb(d.x as int, d.y as int)
            } by {
                let d = cells@[ii];
                assert(sq.contains(d));
                assert(pre.chord_seed(c, d));
                assert(mid2.marked_at(d) == pre.marked_at(d));
            }
            assert forall|e: Coordinates|
                #[trigger] cells@.contains(e) && zero_at(mid2.tile_map, e) implies stack@.contains(
                e,
            ) by {
                let u = choose|u: int| 0 <= u < sq.len() && sq[u] == e;
                assert(zero_at(pre.tile_map, sq[u]));
            }
        }
        self.propagate(&mut cells, &mut stack);
        let completed = self.is_completed();
        proof {
            let fin = *self;
            let cs = cells@;
            assert forall|d: Coordinates| #[trigger] pre.chord_seed(c, d) implies cs.contains(
                d,
            ) by {
                assert(sq.contains(d));
                let u = choose|u: int| 0 <= u < sq.len() && sq[u] == d;
                assert(cs[u] == sq[u]);
            }
            assert forall|ii: int|
                0 <= ii < cs.len() implies {
                let d = #[trigger] cs[ii];
                &&& in_grid_c(pre.tile_map.width, pre.tile_map.height, d)
                &&& pre.covered_c(d)
                &&& !pre.marked_at(d)
                &&& !pre.tile_map.is_bomb(d.x as int, d.y as int)
            } by {
                if ii >= sq.len() {
                    assert(mid2.covered_c(cs[ii]) && !mid2.marked_at(cs[ii]));
                    assert(mid2.covered_c(cs[ii]) == (pre.covered_c(cs[ii]) && !sq.contains(
                        cs[ii],
                    )));
                    assert(mid2.marked_at(cs[ii]) == pre.marked_at(cs[ii]));
                } else {
                    assert(cs[ii] == sq[ii]);
                    assert(sq.contains(sq[ii]));
                    assert(pre.chord_seed(c, sq[ii]));
                }
            }
            assert forall|d: Coordinates|
                in_grid_c(pre.tile_map.width, pre.tile_map.height, d) implies ((
            #[trigger] fin.covered_c(d)) <==> (pre.covered_c(d) && !cs.contains(d))) by {
                assert(fin.covered_c(d) == (mid2.covered_c(d) && !cs.contains(d)));
                assert(mid2.covered_c(d) == (pre.covered_c(d) && !sq.contains(d)));
                if sq.contains(d) {
                    let u = choose|u: int| 0 <= u < sq.len() && sq[u] == d;
                    assert(cs[u] == sq[u]);
                    assert(cs.contains(d));
                }
            }
            assert forall|ii: int|
                0 <= ii < cs.len() implies (pre.chord_seed(c, #[trigger] cs[ii]) || exists|
                e: Coordinates,
            |
                #[trigger] cs.contains(e) && zero_at(pre.tile_map, e) && adjacent_c(
                    e,
                    cs[ii],
                )) by {
                if ii < sq.len() {
                    assert(cs[ii] == sq[ii]);
                    assert(sq.contains(sq[ii]));
                }
            }
            assert forall|e: Coordinates, d: Coordinates|
                cs.contains(e) && zero_at(pre.tile_map, e) && in_grid_c(
                    pre.tile_map.width,
                    pre.tile_map.height,
                    d,
                ) && #[trigger] adjacent_c(e, d) && pre.covered_c(d) && !pre.marked_at(d) implies cs.contains(
                d,
            ) by {
                assert(!pre.marked_at(d) == !mid2.marked_at(d));
                assert(!fin.covered_c(d));
                if !cs.contains(d) {
                    assert(fin.covered_c(d) == (mid2.covered_c(d) && !cs.contains(d)));
                    assert(mid2.covered_c(d) == (pre.covered_c(d) && !sq.contains(d)));
                    if sq.contains(d) {
                        let u = choose|u: int| 0 <= u < sq.len() && sq[u] == d;
                        assert(cs[u] == sq[u]);
                    }
                    assert(false);
                }
            }
        }
        RevealOutcome::Uncovered { cells, completed }
    }

    /// A uniformly drawn covered, bomb-free cell for the assistive
    /// reveal; `None` exactly when no such cell is left.
    pub fn find_safe_covered_coord(&self) -> (r: Option<Coordinates>)
        requires
            self.wf(),
        ensures
            r matches Some(d) ==> (in_grid_c(self.tile_map.width, self.tile_map.height, d)
                && self.covered_c(d) && !self.tile_map.is_bomb(d.x as int, d.y as int)),
            r is Some <==> (exists|d: Coordinates|
                in_grid_c(self.tile_map.width, self.tile_map.height, d) && (
                #[trigger] self.covered_c(d)) && !self.tile_map.is_bomb(d.x as int, d.y as int)),
    {
        let mut cand: Vec<Coordinates> = Vec::new();
        let mut y: u16 = 0;
        while y < self.tile_map.height
            invariant
                self.wf(),
                y <= self.tile_map.height,
                forall|d: Coordinates|
                    #[trigger] cand@.contains(d) <==> (in_grid_c(
                        self.tile_map.width,
                        self.tile_map.height,
                        d,
                    ) && self.covered_c(d) && !self.tile_map.is_bomb(d.x as int, d.y as int) && d.y
                        < y),
            decreases self.tile_map.height - y,
        {
            let mut x: u16 = 0;
            while x < self.tile_map.width
                invariant
                    self.wf(),
                    y < self.tile_map.height,
                    x <= self.tile_map.width,
                    forall|d: Coordinates|
                        #[trigger] cand@.contains(d) <==> (in_grid_c(
                            self.tile_map.width,
                            self.tile_map.height,
                            d,
                        ) && self.covered_c(d) && !self.tile_map.is_bomb(d.x as int, d.y as int)
                            && (d.y < y || (d.y == y && d.x < x))),
                decreases self.tile_map.width - x,
            {
                let d = Coordinates { x, y };
                if self.is_covered(d) && !self.tile_map.is_bomb_at(d) {
                    let ghost cand_old = cand@;
                    cand.push(d);
                    proof {
                        crate::counting::lemma_push_contains(cand_old, d);
                        assert forall|e: Coordinates| #[trigger] cand@.contains(e) implies (
                        in_grid_c(self.tile_map.width, self.tile_map.height, e) && self.covered_c(
                            e,
                        ) && !self.tile_map.is_bomb(e.x as int, e.y as int) && (e.y < y || (e.y == y
                            && e.x < x + 1))) by {
                            assert(cand_old.contains(e) || e == d);
                        }
                        assert forall|e: Coordinates|
                            (in_grid_c(self.tile_map.width, self.tile_map.height, e)
                                && self.covered_c(e) && !self.tile_map.is_bomb(
                                e.x as int,
                                e.y as int,
                            ) && (e.y < y || (e.y == y && e.x < x + 1))) implies
                        #[trigger] cand@.contains(e) by {
                            if e.y == y && e.x == x {
                                assert(e == d);
                                assert(cand@[cand@.len() - 1] == d);
                            } else {
                                assert(cand_old.contains(e));
                            }
                        }
                    }
                } else {
                    proof {
                        assert forall|e: Coordinates|
                            (in_grid_c(self.tile_map.width, self.tile_map.height, e)
                                && self.covered_c(e) && !self.tile_map.is_bomb(
                                e.x as int,
                                e.y as int,
                            ) && (e.y < y || (e.y == y && e.x < x + 1))) implies
                        #[trigger] cand@.contains(e) by {
                            if e.y == y && e.x == x {
                                assert(e == d);
                            }
                        }
                    }
                }
                x = x + 1;
            }
            y = y + 1;
        }
        if cand.len() == 0 {
            proof {
                if exists|d: Coordinates|
                    in_grid_c(self.tile_map.width, self.tile_map.height, d) && (
                    #[trigger] self.covered_c(d)) && !self.tile_map.is_bomb(
                        d.x as int,
                        d.y as int,
                    ) {
                    let d = choose|d: Coordinates|
                        in_grid_c(self.tile_map.width, self.tile_map.height, d) && (
                        #[trigger] self.covered_c(d)) && !self.tile_map.is_bomb(
                            d.x as int,
                            d.y as int,
                        );
                    assert(cand@.contains(d));
                }
            }
            None
        } else {
            let draw: usize = rand::random::<usize>();
            let j: usize = draw % cand.len();
            let d = cand[j];
            proof {
                assert(cand@.contains(d));
            }
            Some(d)
        }
    }

    /// Starts a fresh round: generates a tile map with exactly
    /// `bomb_count` bombs and covers every cell.  With `safe_start`, a
    /// uniformly drawn origin and its neighborhood are kept bomb-free
    /// and recorded in the board.
    pub fn new_game(width: u16, height: u16, bomb_count: u16, safe_start: bool) -> (r: Result<
        Board,
        ConfigError,
    >)
        ensures
            r matches Ok(b) ==> ({
                &&& b.wf()
                &&& b.tile_map.width == width
                &&& b.tile_map.height == height
                &&& b.tile_map.bomb_count == bomb_count
                &&& b.marked_tiles@.len() == 0
                &&& b.covered_count as int == grid_area(width, height)
                &&& forall|d: Coordinates|
                    in_grid_c(width, height, d) ==> #[trigger] b.covered_c(d)
                &&& (safe_start ==> (b.safe_start matches Some(o) && in_grid_c(width, height, o)
                    && forall|x: int, y: int|
                    in_grid(width, height, x, y) && in_safe_zone(o, x, y)
                        ==> !(#[trigger] b.tile_map.is_bomb(x, y))))
                &&& (!safe_start ==> b.safe_start is None)
            }),
            !safe_start ==> (r is Ok <==> (width >= 1 && height >= 1 && bomb_count as int
                <= grid_area(width, height))),
            (safe_start && width >= 1 && height >= 1 && bomb_count as int + 9 <= grid_area(
                width,
                height,
            )) ==> r is Ok,
            (safe_start && r is Err) ==> (width == 0 || height == 0 || exists|o: Coordinates|
                in_grid_c(width, height, o) && bomb_count as int > eligible_cell_count(
                    width,
                    height,
                    Some(o),
                )),
            r == Err::<Board, ConfigError>(ConfigError::InvalidDimensions) <==> (width == 0
                || height == 0),
            r matches Err(e) ==> (e == ConfigError::InvalidDimensions || e
                == ConfigError::TooManyBombs),
    {
        if width == 0 || height == 0 {
            return Err(ConfigError::InvalidDimensions);
        }
        let origin: Option<Coordinates> = if safe_start {
            let rx: usize = rand::random::<usize>() % (width as usize);
            let ry: usize = rand::random::<usize>() % (height as usize);
            Some(Coordinates { x: rx as u16, y: ry as u16 })
        } else {
            None
        };
        proof {
            crate::tile_map::lemma_eligible_count_none(width, height);
            if safe_start {
                crate::tile_map::lemma_eligible_count_lower(width, height, origin->0);
            }
        }
        match TileMap::generate(width, height, bomb_count, origin) {
            Ok(m) => Ok(Board::new(m, origin)),
            Err(e) => {
                proof {
                    if safe_start {
                        let oc = origin->0;
                        assert(in_grid_c(width, height, oc));
                        assert(e == ConfigError::TooManyBombs);
                        assert(bomb_count as int > eligible_cell_count(width, height, Some(oc)));
                    }
                }
                Err(e)
            },
        }
    }
}

/// Law: flagging a covered, unflagged cell blocks a reveal there,
/// while the unflagged cell itself is never rejected.  `b_marked` is
/// the board after the flag toggle: its flag list gains exactly `c`.
pub proof fn lemma_mark_blocks_reveal(b: Board, b_marked: Board, c: Coordinates)
    requires
        b.wf(),
        in_grid_c(b.tile_map.width, b.tile_map.height, c),
        b.covered_c(c),
        !b.marked_at(c),
        b_marked.marked_tiles@ == b.marked_tiles@.push(c),
    ensures
        b_marked.marked_at(c),
        b_marked.rejects(c),
        !b.rejects(c),
{
    assert(b_marked.marked_tiles@[b.marked_tiles@.len() as int] == c);
    assert(b_marked.marked_at(c));
}

/// Distance in which one flood step moves one unit: the larger of the
/// two coordinate differences.
pub open spec fn cheb_dist(c: Coordinates, d: Coordinates) -> int {
    let ax = if c.x >= d.x {
        c.x - d.x
    } else {
        d.x - c.x
    };
    let ay = if c.y >= d.y {
        c.y - d.y
    } else {
        d.y - c.y
    };
    if ax >= ay {
        ax
    } else {
        ay
    }
}

/// Law: on a bomb-free board with no flags and every cell covered,
/// revealing any cell uncovers the whole grid, whatever its size.
/// Stated over the sets `reveal_at` returns: any flood-closed cell
/// set containing the seed `c` contains every in-grid cell `d`, and
/// `reveal_at`'s contract yields exactly such a set together with
/// `uncovered_exactly`.
pub proof fn lemma_zero_bomb_flood_reaches_all(
    pre: Board,
    cells: Seq<Coordinates>,
    c: Coordinates,
    d: Coordinates,
)
    requires
        pre.wf(),
        pre.tile_map.bomb_count == 0,
        pre.marked_tiles@.len() == 0,
        forall|e: Coordinates|
            in_grid_c(pre.tile_map.width, pre.tile_map.height, e) ==> #[trigger] pre.covered_c(e),
        in_grid_c(pre.tile_map.width, pre.tile_map.height, c),
        in_grid_c(pre.tile_map.width, pre.tile_map.height, d),
        cells.contains(c),
        flood_closed(pre, cells),
    ensures
        cells.contains(d),
    decreases cheb_dist(c, d),
{
    if d != c {
        let sx: int = if d.x > c.x {
            d.x - 1
        } else if d.x < c.x {
            d.x + 1
        } else {
            d.x as int
        };
        let sy: int = if d.y > c.y {
            d.y - 1
        } else if d.y < c.y {
            d.y + 1
        } else {
            d.y as int
        };
        let d2 = coord(sx, sy);
        assert(d2.x as int == sx && d2.y as int == sy);
        assert(in_grid_c(pre.tile_map.width, pre.tile_map.height, d2));
        assert(cheb_dist(c, d2) < cheb_dist(c, d));
        lemma_zero_bomb_flood_reaches_all(pre, cells, c, d2);
        lemma_no_bombs_all_zero(pre.tile_map, d2);
        assert(cells.contains(d2));
        assert(adjacent_c(d2, d));
        assert(!pre.marked_at(d));
        assert(pre.covered_c(d));
        assert(cells.contains(d));
    }
}

/// The single bomb of the round sits in the corner cell `(0, 0)`.
pub open spec fn lone_corner_bomb(m: TileMap) -> bool {
    forall|e: Coordinates|
        in_grid_c(m.width, m.height, e) ==> ((#[trigger] m.is_bomb(e.x as int, e.y as int)) <==> (
        e.x == 0 && e.y == 0))
}

/// With the only bomb at `(0, 0)`, no cell away from that corner has
/// a bomb in its indicator grid.
proof fn lemma_ind_zero_away(m: TileMap, x: int, y: int)
    requires
        m.wf(),
        lone_corner_bomb(m),
        !(x == 0 && y == 0),
    ensures
        crate::tile_map::bomb_ind(m.mine_seq(), m.width, m.height, x, y) == 0,
{
    if in_grid(m.width, m.height, x, y) {
        lemma_idx_of_in_range(m.width, m.height, x, y);
        let e = coord(x, y);
        assert(e.x as int == x && e.y as int == y);
        assert(!m.is_bomb(e.x as int, e.y as int));
    }
}

/// With the only bomb at `(0, 0)`, every cell at distance two or more
/// from that corner is a zero-count safe cell.
proof fn lemma_corner_far_zero(m: TileMap, d: Coordinates)
    requires
        m.wf(),
        lone_corner_bomb(m),
        in_grid_c(m.width, m.height, d),
        d.x >= 2 || d.y >= 2,
    ensures
        zero_at(m, d),
{
    let x = d.x as int;
    let y = d.y as int;
    assert(!m.is_bomb(d.x as int, d.y as int));
    lemma_ind_zero_away(m, x - 1, y - 1);
    lemma_ind_zero_away(m, x, y - 1);
    lemma_ind_zero_away(m, x + 1, y - 1);
    lemma_ind_zero_away(m, x - 1, y);
    lemma_ind_zero_away(m, x + 1, y);
    lemma_ind_zero_away(m, x - 1, y + 1);
    lemma_ind_zero_away(m, x, y + 1);
    lemma_ind_zero_away(m, x + 1, y + 1);
    assert(crate::tile_map::neighbor_bombs(m.mine_seq(), m.width, m.height, x, y) == 0);
    assert(m.tile_at(x, y) == Tile::Safe(0u8));
}

/// Every cell at distance two or more from the bomb corner is reached
/// from the far corner through the zero-count region.
proof fn lemma_corner_zero_reach(pre: Board, cells: Seq<Coordinates>, d: Coordinates)
    requires
        pre.wf(),
        pre.tile_map.width >= 3,
        pre.tile_map.height >= 3,
        lone_corner_bomb(pre.tile_map),
        pre.marked_tiles@.len() == 0,
        forall|e: Coordinates|
            in_grid_c(pre.tile_map.width, pre.tile_map.height, e) ==> #[trigger] pre.covered_c(e),
        cells.contains(coord(pre.tile_map.width - 1, pre.tile_map.height - 1)),
        flood_closed(pre, cells),
        in_grid_c(pre.tile_map.width, pre.tile_map.height, d),
        d.x >= 2 || d.y >= 2,
    ensures
        cells.contains(d),
    decreases cheb_dist(coord(pre.tile_map.width - 1, pre.tile_map.height - 1), d),
{
    let far = coord(pre.tile_map.width - 1, pre.tile_map.height - 1);
    if d != far {
        let sx: int = if d.x < pre.tile_map.width - 1 {
            d.x + 1
        } else {
            d.x as int
        };
        let sy: int = if d.y < pre.tile_map.height - 1 {
            d.y + 1
        } else {
            d.y as int
        };
        let d2 = coord(sx, sy);
        assert(d2.x as int == sx && d2.y as int == sy);
        assert(in_grid_c(pre.tile_map.width, pre.tile_map.height, d2));
        assert(d2.x >= 2 || d2.y >= 2);
        assert(cheb_dist(far, d2) < cheb_dist(far, d));
        lemma_corner_zero_reach(pre, cells, d2);
        lemma_corner_far_zero(pre.tile_map, d2);
        assert(cells.contains(d2));
        assert(adjacent_c(d2, d));
        assert(!pre.marked_at(d));
        assert(pre.covered_c(d));
        assert(cells.contains(d));
    }
}

/// Law: with the only bomb in the corner cell `(0, 0)`, every cell
/// covered, no flags placed, and both dimensions at least 3,
/// revealing the far opposite corner uncovers every safe cell of the
/// grid: any flood-closed cell set containing that corner contains
/// every cell but the bomb, and `reveal_at`'s contract yields exactly
/// such a set together with `uncovered_exactly`.  Thinner grids are
/// left out, where a count-1 cell can lack any zero-count neighbor
/// and stays covered.
pub proof fn lemma_corner_bomb_reveal_uncovers_all(
    pre: Board,
    cells: Seq<Coordinates>,
    d: Coordinates,
)
    requires
        pre.wf(),
        pre.tile_map.width >= 3,
        pre.tile_map.height >= 3,
        lone_corner_bomb(pre.tile_map),
        pre.marked_tiles@.len() == 0,
        forall|e: Coordinates|
            in_grid_c(pre.tile_map.width, pre.tile_map.height, e) ==> #[trigger] pre.covered_c(e),
        cells.contains(coord(pre.tile_map.width - 1, pre.tile_map.height - 1)),
        flood_closed(pre, cells),
        in_grid_c(pre.tile_map.width, pre.tile_map.height, d),
        !(d.x == 0 && d.y == 0),
    ensures
        cells.contains(d),
{
    if d.x >= 2 || d.y >= 2 {
        lemma_corner_zero_reach(pre, cells, d);
    } else {
        let e: Coordinates = if d.x == 1 && d.y == 0 {
            coord(2, 0)
        } else if d.x == 0 && d.y == 1 {
            coord(0, 2)
        } else {
            coord(2, 2)
        };
        assert(in_grid_c(pre.tile_map.width, pre.tile_map.height, e));
        assert(e.x >= 2 || e.y >= 2);
        lemma_corner_zero_reach(pre, cells, e);
        lemma_corner_far_zero(pre.tile_map, e);
        assert(cells.contains(e));
        assert(adjacent_c(e, d));
        assert(!pre.marked_at(d));
        assert(pre.covered_c(d));
        assert(cells.contains(d));
    }
}

/// Law: a reveal at an uncovered cell whose chord condition is unmet
/// is a no-op — the rejection predicate holds of exactly those
/// states, so `reveal_at` leaves the board unchanged there.
pub proof fn lemma_unmet_chord_rejected(b: Board, c: Coordinates)
    requires
        in_grid_c(b.tile_map.width, b.tile_map.height, c),
        !b.covered_c(c),
        !b.chord_ok(c),
    ensures
        b.rejects(c),
{
}

} // verus!
