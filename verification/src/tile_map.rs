//! The ground truth of one round: which cells hold a bomb, and each
//! safe cell's adjacent-bomb count.

use vstd::prelude::*;

use crate::coordinates::{
    adjacent_c, coord, grid_area, idx_of, in_grid, in_grid_c, in_safe_zone,
    lemma_idx_of_in_range, lemma_idx_of_injective, Coordinates,
};
use crate::counting::{count_true, lemma_count_true_push, lemma_count_true_update};

verus! {

/// Per-cell classification: a bomb, or a safe cell carrying the number
/// of bombs among its up-to-8 neighbors.
#[derive(Clone, Copy, PartialEq, Eq, Structural, Debug)]
pub enum Tile {
    Bomb,
    Safe(u8),
}

/// Per-cell neighbor information handed to a renderer: the number of
/// bombs adjacent to a safe cell.
#[derive(Clone, Copy, PartialEq, Eq, Structural, Debug)]
pub struct BombNeighbor {
    /// Number of neighbor bombs
    pub count: u8,
}

/// A fatal, construction-time configuration error.
#[derive(Clone, Copy, PartialEq, Eq, Structural, Debug)]
pub enum ConfigError {
    /// A grid dimension is zero.
    InvalidDimensions,
    /// More bombs were requested than cells are eligible to hold them.
    TooManyBombs,
    /// A requested bomb position lies outside the grid.
    BombOutOfBounds,
    /// The same bomb position was requested twice.
    DuplicateBomb,
}

/// The dense grid of tiles, populated once at generation and never
/// mutated afterwards.
#[derive(Debug)]
pub struct TileMap {
    pub width: u16,
    pub height: u16,
    pub bomb_count: u16,
    pub tiles: Vec<Tile>,
}

/// Bomb indicator of cell `(x, y)` in the mine grid `mines`: 1 inside
/// the grid on a bomb, otherwise 0.
pub open spec fn bomb_ind(mines: Seq<bool>, width: u16, height: u16, x: int, y: int) -> int {
    if in_grid(width, height, x, y) && mines[idx_of(width, x, y)] {
        1
    } else {
        0
    }
}

/// Number of bombs among the up-to-8 in-grid neighbors of `(x, y)`.
pub open spec fn neighbor_bombs(mines: Seq<bool>, width: u16, height: u16, x: int, y: int) -> int {
    bomb_ind(mines, width, height, x - 1, y - 1) + bomb_ind(mines, width, height, x, y - 1)
        + bomb_ind(mines, width, height, x + 1, y - 1) + bomb_ind(mines, width, height, x - 1, y)
        + bomb_ind(mines, width, height, x + 1, y) + bomb_ind(mines, width, height, x - 1, y + 1)
        + bomb_ind(mines, width, height, x, y + 1) + bomb_ind(mines, width, height, x + 1, y + 1)
}

impl TileMap {
    /// The tile stored for the in-grid cell `(x, y)`.
    pub open spec fn tile_at(self, x: int, y: int) -> Tile {
        self.tiles@[idx_of(self.width, x, y)]
    }

    /// The in-grid cell `(x, y)` holds a bomb.
    pub open spec fn is_bomb(self, x: int, y: int) -> bool {
        self.tile_at(x, y) is Bomb
    }

    /// The bomb indicator grid underlying the tiles.
    pub open spec fn mine_seq(self) -> Seq<bool> {
        Seq::new(self.tiles@.len(), |i: int| self.tiles@[i] is Bomb)
    }

    /// The adjacent-bomb count of an in-grid safe cell; 0 on a bomb
    /// cell or outside the grid.
    pub open spec fn spec_bomb_count_at(self, x: int, y: int) -> int {
        if in_grid(self.width, self.height, x, y) {
            match self.tile_at(x, y) {
                Tile::Bomb => 0,
                Tile::Safe(n) => n as int,
            }
        } else {
            0
        }
    }

    /// Well-formedness: the grid is dense, the stored bomb total is
    /// exact, and every safe cell carries the exact number of bombs
    /// among its in-grid neighbors.
    pub open spec fn wf(self) -> bool {
        &&& self.width >= 1
        &&& self.height >= 1
        &&& self.tiles@.len() == grid_area(self.width, self.height)
        &&& self.bomb_count as int == count_true(self.mine_seq())
        &&& forall|x: int, y: int|
            #![trigger self.tile_at(x, y)]
            in_grid(self.width, self.height, x, y) ==> match self.tile_at(x, y) {
                Tile::Bomb => true,
                Tile::Safe(n) => n as int == neighbor_bombs(
                    self.mine_seq(),
                    self.width,
                    self.height,
                    x,
                    y,
                ),
            }
    }
}

impl TileMap {
    /// Total number of bombs of the round; constant for the map's
    /// lifetime.
    pub fn bomb_count(&self) -> (n: u16)
        ensures
            n == self.bomb_count,
    {
        self.bomb_count
    }

    /// The coordinate lies inside this map's grid.
    pub fn contains(&self, c: Coordinates) -> (r: bool)
        ensures
            r == in_grid_c(self.width, self.height, c),
    {
        c.x < self.width && c.y < self.height
    }

    /// The cell holds a bomb; `false` outside the grid.
    pub fn is_bomb_at(&self, c: Coordinates) -> (r: bool)
        requires
            self.wf(),
        ensures
            r == (in_grid_c(self.width, self.height, c) && self.is_bomb(c.x as int, c.y as int)),
    {
        if c.x < self.width && c.y < self.height {
            proof {
                lemma_idx_of_in_range(self.width, self.height, c.x as int, c.y as int);
            }
            let i: usize = index_in(self.width, c);
            match self.tiles[i] {
                Tile::Bomb => true,
                Tile::Safe(_) => false,
            }
        } else {
            false
        }
    }

    /// The adjacent-bomb count stored for a safe cell; 0 on a bomb
    /// cell or outside the grid.
    pub fn bomb_count_at(&self, c: Coordinates) -> (n: u8)
        requires
            self.wf(),
        ensures
            n as int == self.spec_bomb_count_at(c.x as int, c.y as int),
    {
        if c.x < self.width && c.y < self.height {
            proof {
                lemma_idx_of_in_range(self.width, self.height, c.x as int, c.y as int);
            }
            let i: usize = index_in(self.width, c);
            match self.tiles[i] {
                Tile::Bomb => 0,
                Tile::Safe(n) => n,
            }
        } else {
            0
        }
    }

    /// The neighbor-count component of a safe in-grid cell, for a
    /// renderer; `None` on a bomb cell or outside the grid.
    pub fn bomb_neighbor_at(&self, c: Coordinates) -> (r: Option<BombNeighbor>)
        requires
            self.wf(),
        ensures
            r is Some <==> (in_grid_c(self.width, self.height, c) && !self.is_bomb(
                c.x as int,
                c.y as int,
            )),
            r matches Some(b) ==> b.count as int == self.spec_bomb_count_at(c.x as int, c.y as int),
    {
        if c.x < self.width && c.y < self.height {
            proof {
                lemma_idx_of_in_range(self.width, self.height, c.x as int, c.y as int);
            }
            let i: usize = index_in(self.width, c);
            match self.tiles[i] {
                Tile::Bomb => None,
                Tile::Safe(n) => Some(BombNeighbor { count: n }),
            }
        } else {
            None
        }
    }

    /// The in-grid neighbors of `c`, in the fixed 8-direction order
    /// NW, N, NE, W, E, SW, S, SE.
    pub fn safe_square_at(&self, c: Coordinates) -> (r: Vec<Coordinates>)
        ensures
            r@.no_duplicates(),
            forall|d: Coordinates|
                #[trigger] r@.contains(d) <==> (in_grid_c(self.width, self.height, d) && adjacent_c(
                    c,
                    d,
                )),
    {
        neighbors_in_grid(self.width, self.height, c)
    }
}

/// The in-grid neighbors of `c`, in the fixed 8-direction order NW, N,
/// NE, W, E, SW, S, SE.
pub fn neighbors_in_grid(width: u16, height: u16, c: Coordinates) -> (r: Vec<Coordinates>)
    ensures
        r@.no_duplicates(),
        forall|d: Coordinates|
            #[trigger] r@.contains(d) <==> (in_grid_c(width, height, d) && adjacent_c(c, d)),
{
    let mut r: Vec<Coordinates> = Vec::new();
    let deltas: [(i8, i8); 8] = [
        (-1, -1),
        (0, -1),
        (1, -1),
        (-1, 0),
        (1, 0),
        (-1, 1),
        (0, 1),
        (1, 1),
    ];
    let mut k: usize = 0;
    while k < 8
        invariant
            0 <= k <= 8,
            deltas@ =~= seq![
                (-1i8, -1i8),
                (0i8, -1i8),
                (1i8, -1i8),
                (-1i8, 0i8),
                (1i8, 0i8),
                (-1i8, 1i8),
                (0i8, 1i8),
                (1i8, 1i8),
            ],
            r@.no_duplicates(),
            forall|d: Coordinates|
                #[trigger] r@.contains(d) <==> (in_grid_c(width, height, d) && exists|j: int|
                    0 <= j < k && d.x as int == c.x as int + deltas@[j].0 as int && d.y as int
                        == c.y as int + deltas@[j].1 as int),
        decreases 8 - k,
    {
        let (dx, dy): (i8, i8) = deltas[k];
        let ghost r_old = r@;
        match c.checked_offset(dx, dy, width, height) {
            Some(d) => {
                proof {
                    if r_old.contains(d) {
                        let j = choose|j: int|
                            0 <= j < k && d.x as int == c.x as int + deltas@[j].0 as int
                                && d.y as int == c.y as int + deltas@[j].1 as int;
                        assert(deltas@[j].0 == deltas@[k as int].0 && deltas@[j].1
                            == deltas@[k as int].1);
                        assert(false);
                    }
                    crate::counting::lemma_push_no_duplicates(r_old, d);
                }
                r.push(d);
                proof {
                    crate::counting::lemma_push_contains(r_old, d);
                    assert forall|e: Coordinates| #[trigger] r@.contains(e) implies (in_grid_c(
                        width,
                        height,
                        e,
                    ) && exists|j: int|
                        0 <= j < k + 1 && e.x as int == c.x as int + deltas@[j].0 as int
                            && e.y as int == c.y as int + deltas@[j].1 as int) by {
                        assert(r@ == r_old.push(d));
                        assert(r_old.contains(e) || e == d);
                        if e == d {
                            assert(e.x as int == c.x as int + deltas@[k as int].0 as int
                                && e.y as int == c.y as int + deltas@[k as int].1 as int);
                        } else {
                            assert(r_old.contains(e));
                        }
                    }
                    assert forall|e: Coordinates|
                        (in_grid_c(width, height, e) && exists|j: int|
                            0 <= j < k + 1 && e.x as int == c.x as int + deltas@[j].0 as int
                                && e.y as int == c.y as int + deltas@[j].1 as int) implies
                        #[trigger] r@.contains(e) by {
                        let j = choose|j: int|
                            0 <= j < k + 1 && e.x as int == c.x as int + deltas@[j].0 as int
                                && e.y as int == c.y as int + deltas@[j].1 as int;
                        if j == k {
                            assert(e.x == d.x && e.y == d.y);
                            assert(e == d);
                        } else {
                            assert(r_old.contains(e));
                        }
                    }
                }
            },
            None => {
                proof {
                    assert forall|e: Coordinates|
                        (in_grid_c(width, height, e) && exists|j: int|
                            0 <= j < k + 1 && e.x as int == c.x as int + deltas@[j].0 as int
                                && e.y as int == c.y as int + deltas@[j].1 as int) implies
                        #[trigger] r@.contains(e) by {
                        let j = choose|j: int|
                            0 <= j < k + 1 && e.x as int == c.x as int + deltas@[j].0 as int
                                && e.y as int == c.y as int + deltas@[j].1 as int;
                        assert(j < k);
                    }
                }
            },
        }
        k = k + 1;
    }
    proof {
        assert forall|d: Coordinates| #[trigger] r@.contains(d) implies (in_grid_c(
            width,
            height,
            d,
        ) && adjacent_c(c, d)) by {}
        assert forall|d: Coordinates| (in_grid_c(width, height, d) && adjacent_c(c, d)) implies
            #[trigger] r@.contains(d) by {
            let dx: int = d.x as int - c.x as int;
            let dy: int = d.y as int - c.y as int;
            let j: int = if dy == -1 {
                if dx == -1 {
                    0
                } else if dx == 0 {
                    1
                } else {
                    2
                }
            } else if dy == 0 {
                if dx == -1 {
                    3
                } else {
                    4
                }
            } else {
                if dx == -1 {
                    5
                } else if dx == 0 {
                    6
                } else {
                    7
                }
            };
            assert(0 <= j < 8 && d.x as int == c.x as int + seq![
                (-1i8, -1i8),
                (0i8, -1i8),
                (1i8, -1i8),
                (-1i8, 0i8),
                (1i8, 0i8),
                (-1i8, 1i8),
                (0i8, 1i8),
                (1i8, 1i8),
            ][j].0 as int && d.y as int == c.y as int + seq![
                (-1i8, -1i8),
                (0i8, -1i8),
                (1i8, -1i8),
                (-1i8, 0i8),
                (1i8, 0i8),
                (-1i8, 1i8),
                (0i8, 1i8),
                (1i8, 1i8),
            ][j].1 as int);
        }
    }
    r
}

impl TileMap {
    /// Builds the tile map for an explicit bomb layout: every listed
    /// cell becomes a bomb, every other cell a safe tile carrying its
    /// exact adjacent-bomb count.  Rejects empty grids, positions
    /// outside the grid, repeated positions, and more bombs than the
    /// bomb counter can hold.
    pub fn from_bomb_coordinates(width: u16, height: u16, bombs: &Vec<Coordinates>) -> (r: Result<
        TileMap,
        ConfigError,
    >)
        ensures
            r is Ok <==> (width >= 1 && height >= 1 && bombs@.len() <= u16::MAX && (forall|i: int|
                0 <= i < bombs@.len() ==> in_grid_c(width, height, #[trigger] bombs@[i]))
                && bombs@.no_duplicates()),
            r matches Ok(m) ==> ({
                &&& m.wf()
                &&& m.width == width
                &&& m.height == height
                &&& m.bomb_count as int == bombs@.len()
                &&& forall|d: Coordinates|
                    in_grid_c(width, height, d) ==> ((#[trigger] m.is_bomb(d.x as int, d.y as int))
                        <==> bombs@.contains(d))
            }),
            r == Err::<TileMap, ConfigError>(ConfigError::InvalidDimensions) <==> (width == 0
                || height == 0),
            (r matches Err(e) && e == ConfigError::TooManyBombs) ==> bombs@.len() > u16::MAX,
            (r matches Err(e) && e == ConfigError::BombOutOfBounds) ==> exists|i: int|
                0 <= i < bombs@.len() && !in_grid_c(width, height, #[trigger] bombs@[i]),
            (r matches Err(e) && e == ConfigError::DuplicateBomb) ==> !bombs@.no_duplicates(),
    {
        if width == 0 || height == 0 {
            return Err(ConfigError::InvalidDimensions);
        }
        if bombs.len() > u16::MAX as usize {
            return Err(ConfigError::TooManyBombs);
        }
        proof {
            assert(width as int * height as int <= 0xffff_ffff) by (nonlinear_arith)
                requires
                    width as int <= 0xffff,
                    height as int <= 0xffff,
            {}
        }
        let area: usize = width as usize * height as usize;
        let mut grid: Vec<bool> = Vec::new();
        let mut i: usize = 0;
        while i < area
            invariant
                grid@.len() == i,
                i <= area,
                count_true(grid@) == 0,
                forall|j: int| 0 <= j < i ==> !(#[trigger] grid@[j]),
            decreases area - i,
        {
            proof {
                lemma_count_true_push(grid@, false);
            }
            grid.push(false);
            i = i + 1;
        }
        let ghost garea: int = grid_area(width, height);
        proof {
            assert forall|d: Coordinates| in_grid_c(width, height, d) implies !((
            #[trigger] grid@[idx_of(width, d.x as int, d.y as int)])) by {
                lemma_idx_of_in_range(width, height, d.x as int, d.y as int);
            }
        }
        let mut k: usize = 0;
        while k < bombs.len()
            invariant
                width >= 1,
                height >= 1,
                grid@.len() == garea,
                garea == grid_area(width, height),
                area == garea,
                k <= bombs@.len() <= u16::MAX,
                forall|j: int| 0 <= j < k ==> in_grid_c(width, height, #[trigger] bombs@[j]),
                bombs@.subrange(0, k as int).no_duplicates(),
                count_true(grid@) == k,
                forall|d: Coordinates|
                    in_grid_c(width, height, d) ==> ((#[trigger] grid@[idx_of(
                        width,
                        d.x as int,
                        d.y as int,
                    )]) <==> bombs@.subrange(0, k as int).contains(d)),
            decreases bombs@.len() - k,
        {
            let c = bombs[k];
            if !(c.x < width && c.y < height) {
                proof {
                    assert(!in_grid_c(width, height, bombs@[k as int]));
                }
                return Err(ConfigError::BombOutOfBounds);
            }
            proof {
                lemma_idx_of_in_range(width, height, c.x as int, c.y as int);
            }
            let i: usize = index_in(width, c);
            if grid[i] {
                proof {
                    let pre = bombs@.subrange(0, k as int);
                    assert(pre.contains(c));
                    let j = choose|j: int| 0 <= j < pre.len() && pre[j] == c;
                    assert(bombs@[j] == bombs@[k as int]);
                }
                return Err(ConfigError::DuplicateBomb);
            }
            let ghost grid_old = grid@;
            grid[i] = true;
            k = k + 1;
            proof {
                lemma_count_true_update(grid_old, i as int, true, grid_old.len() as int);
                let pre_old = bombs@.subrange(0, k as int - 1);
                let pre_new = bombs@.subrange(0, k as int);
                assert(pre_new =~= pre_old.push(c));
                crate::counting::lemma_push_contains(pre_old, c);
                assert(!pre_old.contains(c));
                crate::counting::lemma_push_no_duplicates(pre_old, c);
                assert forall|d: Coordinates| in_grid_c(width, height, d) implies ((
                #[trigger] grid@[idx_of(width, d.x as int, d.y as int)]) <==> pre_new.contains(
                    d,
                )) by {
                    lemma_idx_of_in_range(width, height, d.x as int, d.y as int);
                    if d == c {
                        assert(grid@[idx_of(width, d.x as int, d.y as int)]);
                    } else {
                        if idx_of(width, d.x as int, d.y as int) == i as int {
                            lemma_idx_of_injective(
                                width,
                                height,
                                d.x as int,
                                d.y as int,
                                c.x as int,
                                c.y as int,
                            );
                        }
                        assert(idx_of(width, d.x as int, d.y as int) != i as int);
                        assert(grid@[idx_of(width, d.x as int, d.y as int)] == grid_old[idx_of(
                            width,
                            d.x as int,
                            d.y as int,
                        )]);
                    }
                }
            }
        }
        proof {
            assert(bombs@.subrange(0, bombs@.len() as int) =~= bombs@);
        }
        let mut tiles: Vec<Tile> = Vec::new();
        let mut y: u16 = 0;
        while y < height
            invariant
                width >= 1,
                height >= 1,
                y <= height,
                grid@.len() == garea,
                garea == grid_area(width, height),
                tiles@.len() == y as int * width as int,
                forall|xx: int, yy: int|
                    #![trigger idx_of(width, xx, yy)]
                    in_grid(width, height, xx, yy) && idx_of(width, xx, yy) < tiles@.len()
                        ==> tiles@[idx_of(width, xx, yy)] == (if grid@[idx_of(width, xx, yy)] {
                        Tile::Bomb
                    } else {
                        Tile::Safe(neighbor_bombs(grid@, width, height, xx, yy) as u8)
                    }),
                forall|j: int|
                    0 <= j < tiles@.len() ==> ((#[trigger] tiles@[j]) is Bomb <==> grid@[j]),
            decreases height - y,
        {
            let mut x: u16 = 0;
            while x < width
                invariant
                    width >= 1,
                    height >= 1,
                    y < height,
                    x <= width,
                    grid@.len() == garea,
                    garea == grid_area(width, height),
                    tiles@.len() == y as int * width as int + x as int,
                    forall|xx: int, yy: int|
                        #![trigger idx_of(width, xx, yy)]
                        in_grid(width, height, xx, yy) && idx_of(width, xx, yy) < tiles@.len()
                            ==> tiles@[idx_of(width, xx, yy)] == (if grid@[idx_of(width, xx, yy)] {
                            Tile::Bomb
                        } else {
                            Tile::Safe(neighbor_bombs(grid@, width, height, xx, yy) as u8)
                        }),
                    forall|j: int|
                        0 <= j < tiles@.len() ==> ((#[trigger] tiles@[j]) is Bomb <==> grid@[j]),
                decreases width - x,
            {
                let c = Coordinates { x, y };
                proof {
                    lemma_idx_of_in_range(width, height, x as int, y as int);
                }
                let i: usize = index_in(width, c);
                let ghost tiles_old = tiles@;
                let t: Tile = if grid[i] {
                    Tile::Bomb
                } else {
                    Tile::Safe(count_neighbors(&grid, width, height, x, y))
                };
                tiles.push(t);
                proof {
                    assert forall|xx: int, yy: int|
                        in_grid(width, height, xx, yy) && #[trigger] idx_of(width, xx, yy)
                            < tiles@.len() implies tiles@[idx_of(width, xx, yy)] == (if grid@[idx_of(
                        width,
                        xx,
                        yy,
                    )] {
                        Tile::Bomb
                    } else {
                        Tile::Safe(neighbor_bombs(grid@, width, height, xx, yy) as u8)
                    }) by {
                        if idx_of(width, xx, yy) < tiles_old.len() {
                            assert(tiles@[idx_of(width, xx, yy)] == tiles_old[idx_of(
                                width,
                                xx,
                                yy,
                            )]);
                        } else {
                            lemma_idx_of_injective(width, height, xx, yy, x as int, y as int);
                        }
                    }
                }
                x = x + 1;
            }
            proof {
                assert((y as int + 1) * width as int == y as int * width as int + width as int)
                    by (nonlinear_arith);
            }
            y = y + 1;
        }
        let m = TileMap { width, height, bomb_count: bombs.len() as u16, tiles };
        proof {
            assert(height as int * width as int == width as int * height as int)
                by (nonlinear_arith);
            assert(m.tiles@.len() == garea);
            assert(m.mine_seq() =~= grid@);
            assert forall|xx: int, yy: int| #![trigger m.tile_at(xx, yy)]
                in_grid(width, height, xx, yy) implies match m.tile_at(xx, yy) {
                Tile::Bomb => true,
                Tile::Safe(n) => n as int == neighbor_bombs(m.mine_seq(), width, height, xx, yy),
            } by {
                lemma_idx_of_in_range(width, height, xx, yy);
                assert(idx_of(width, xx, yy) < m.tiles@.len());
                assert(m.tiles@[idx_of(width, xx, yy)] == (if grid@[idx_of(width, xx, yy)] {
                    Tile::Bomb
                } else {
                    Tile::Safe(neighbor_bombs(grid@, width, height, xx, yy) as u8)
                }));
                assert(0 <= neighbor_bombs(grid@, width, height, xx, yy) <= 8);
            }
            assert(m.wf());
            assert forall|d: Coordinates| in_grid_c(width, height, d) implies ((#[trigger] m.is_bomb(
                d.x as int,
                d.y as int,
            )) <==> bombs@.contains(d)) by {
                lemma_idx_of_in_range(width, height, d.x as int, d.y as int);
            }
        }
        Ok(m)
    }
}

/// The cell `(x, y)` may receive a bomb: it lies in the grid and
/// outside the requested safe zone.
pub open spec fn cell_eligible(
    width: u16,
    height: u16,
    safe: Option<Coordinates>,
    x: int,
    y: int,
) -> bool {
    in_grid(width, height, x, y) && match safe {
        Some(o) => !in_safe_zone(o, x, y),
        None => true,
    }
}

/// Number of eligible cells among the first `x` cells of row `y`.
pub open spec fn eligible_in_row_upto(
    width: u16,
    height: u16,
    safe: Option<Coordinates>,
    y: int,
    x: int,
) -> int
    decreases x,
{
    if x <= 0 {
        0
    } else {
        eligible_in_row_upto(width, height, safe, y, x - 1) + if cell_eligible(
            width,
            height,
            safe,
            x - 1,
            y,
        ) {
            1int
        } else {
            0int
        }
    }
}

/// Number of eligible cells in the first `y` full rows.
pub open spec fn eligible_rows_upto(
    width: u16,
    height: u16,
    safe: Option<Coordinates>,
    y: int,
) -> int
    decreases y,
{
    if y <= 0 {
        0
    } else {
        eligible_rows_upto(width, height, safe, y - 1) + eligible_in_row_upto(
            width,
            height,
            safe,
            y - 1,
            width as int,
        )
    }
}

/// Number of cells eligible for bomb placement on the whole grid.
pub open spec fn eligible_cell_count(width: u16, height: u16, safe: Option<Coordinates>) -> int {
    eligible_rows_upto(width, height, safe, height as int)
}

/// Without a safe zone, every cell of a row prefix is eligible.
pub proof fn lemma_eligible_row_none(width: u16, height: u16, y: int, x: int)
    requires
        0 <= x <= width as int,
        0 <= y < height as int,
    ensures
        eligible_in_row_upto(width, height, None::<Coordinates>, y, x) == x,
    decreases x,
{
    if x > 0 {
        lemma_eligible_row_none(width, height, y, x - 1);
    }
}

/// Without a safe zone, the eligible cells of the first `y` rows are
/// all their cells.
pub proof fn lemma_eligible_rows_none(width: u16, height: u16, y: int)
    requires
        0 <= y <= height as int,
    ensures
        eligible_rows_upto(width, height, None::<Coordinates>, y) == y * width as int,
    decreases y,
{
    if y > 0 {
        lemma_eligible_rows_none(width, height, y - 1);
        lemma_eligible_row_none(width, height, y - 1, width as int);
        assert(y * width as int == (y - 1) * width as int + width as int) by (nonlinear_arith);
    } else {
        assert(y * width as int == 0) by (nonlinear_arith)
            requires
                y == 0,
        {}
    }
}

/// Without a safe zone, every cell of the grid is eligible.
pub proof fn lemma_eligible_count_none(width: u16, height: u16)
    ensures
        eligible_cell_count(width, height, None::<Coordinates>) == grid_area(width, height),
{
    lemma_eligible_rows_none(width, height, height as int);
    assert(height as int * width as int == width as int * height as int) by (nonlinear_arith);
}

/// How many of the three values `center - 1`, `center`, `center + 1`
/// lie in `[0, k)`: the columns (or rows) a safe zone can touch.
pub open spec fn near_count(center: int, k: int) -> int {
    (if 0 <= center - 1 < k {
        1int
    } else {
        0int
    }) + (if 0 <= center < k {
        1int
    } else {
        0int
    }) + (if 0 <= center + 1 < k {
        1int
    } else {
        0int
    })
}

/// A safe zone removes at most the columns next to its origin from
/// any row prefix.
pub proof fn lemma_eligible_row_lower(width: u16, height: u16, o: Coordinates, y: int, x: int)
    requires
        0 <= x <= width as int,
        0 <= y < height as int,
    ensures
        eligible_in_row_upto(width, height, Some(o), y, x) >= x - near_count(o.x as int, x),
    decreases x,
{
    if x > 0 {
        lemma_eligible_row_lower(width, height, o, y, x - 1);
    }
}

/// A row beyond the safe zone's rows keeps every cell eligible.
pub proof fn lemma_eligible_row_full(width: u16, height: u16, o: Coordinates, y: int, x: int)
    requires
        0 <= x <= width as int,
        0 <= y < height as int,
        y < o.y as int - 1 || y > o.y as int + 1,
    ensures
        eligible_in_row_upto(width, height, Some(o), y, x) == x,
    decreases x,
{
    if x > 0 {
        lemma_eligible_row_full(width, height, o, y, x - 1);
    }
}

/// The first `y` rows lose at most three cells for each of the
/// up-to-3 rows the safe zone touches.
pub proof fn lemma_eligible_rows_lower(width: u16, height: u16, o: Coordinates, y: int)
    requires
        0 <= y <= height as int,
    ensures
        eligible_rows_upto(width, height, Some(o), y) >= y * width as int - 3 * near_count(
            o.y as int,
            y,
        ),
    decreases y,
{
    if y > 0 {
        lemma_eligible_rows_lower(width, height, o, y - 1);
        assert(y * width as int == (y - 1) * width as int + width as int) by (nonlinear_arith);
        if o.y as int - 1 <= y - 1 <= o.y as int + 1 {
            lemma_eligible_row_lower(width, height, o, y - 1, width as int);
        } else {
            lemma_eligible_row_full(width, height, o, y - 1, width as int);
        }
    } else {
        assert(y * width as int == 0) by (nonlinear_arith)
            requires
                y == 0,
        {}
    }
}

/// A safe zone excludes at most 9 cells: the whole grid minus the
/// origin's closed neighborhood stays eligible.
pub proof fn lemma_eligible_count_lower(width: u16, height: u16, o: Coordinates)
    ensures
        eligible_cell_count(width, height, Some(o)) >= grid_area(width, height) - 9,
{
    lemma_eligible_rows_lower(width, height, o, height as int);
    assert(height as int * width as int == width as int * height as int) by (nonlinear_arith);
}

impl TileMap {
    /// Generates a round: places exactly `mine_count` bombs, drawn
    /// without replacement uniformly among the eligible cells (all
    /// cells, minus the closed neighborhood of `safe_origin` when one
    /// is given), then computes every safe cell's adjacent-bomb count.
    /// Fails exactly when the grid is empty or the request exceeds the
    /// number of eligible cells.
    pub fn generate(
        width: u16,
        height: u16,
        mine_count: u16,
        safe_origin: Option<Coordinates>,
    ) -> (r: Result<TileMap, ConfigError>)
        requires
            safe_origin matches Some(o) ==> in_grid_c(width, height, o),
        ensures
            r is Ok <==> (width >= 1 && height >= 1 && mine_count as int <= eligible_cell_count(
                width,
                height,
                safe_origin,
            )),
            r matches Ok(m) ==> ({
                &&& m.wf()
                &&& m.width == width
                &&& m.height == height
                &&& m.bomb_count == mine_count
                &&& (safe_origin matches Some(o) ==> forall|x: int, y: int|
                    in_grid(width, height, x, y) && in_safe_zone(o, x, y) ==> !(#[trigger] m.is_bomb(
                        x,
                        y,
                    )))
            }),
            r == Err::<TileMap, ConfigError>(ConfigError::InvalidDimensions) <==> (width == 0
                || height == 0),
            (r matches Err(e) && e == ConfigError::TooManyBombs) ==> mine_count as int
                > eligible_cell_count(width, height, safe_origin),
            r matches Err(e) ==> (e == ConfigError::InvalidDimensions || e
                == ConfigError::TooManyBombs),
    {
        if width == 0 || height == 0 {
            return Err(ConfigError::InvalidDimensions);
        }
        let mut elig: Vec<Coordinates> = Vec::new();
        let mut y: u16 = 0;
        while y < height
            invariant
                width >= 1,
                height >= 1,
                y <= height,
                elig@.no_duplicates(),
                elig@.len() == eligible_rows_upto(width, height, safe_origin, y as int),
                forall|d: Coordinates|
                    #[trigger] elig@.contains(d) <==> (cell_eligible(
                        width,
                        height,
                        safe_origin,
                        d.x as int,
                        d.y as int,
                    ) && d.y < y),
            decreases height - y,
        {
            let mut x: u16 = 0;
            while x < width
                invariant
                    width >= 1,
                    height >= 1,
                    y < height,
                    x <= width,
                    elig@.no_duplicates(),
                    elig@.len() == eligible_rows_upto(width, height, safe_origin, y as int)
                        + eligible_in_row_upto(width, height, safe_origin, y as int, x as int),
                    forall|d: Coordinates|
                        #[trigger] elig@.contains(d) <==> (cell_eligible(
                            width,
                            height,
                            safe_origin,
                            d.x as int,
                            d.y as int,
                        ) && (d.y < y || (d.y == y && d.x < x))),
                decreases width - x,
            {
                let eligible: bool = match safe_origin {
                    None => true,
                    Some(o) => {
                        let dx: i32 = x as i32 - o.x as i32;
                        let dy: i32 = y as i32 - o.y as i32;
                        !(-1 <= dx && dx <= 1 && -1 <= dy && dy <= 1)
                    },
                };
                if eligible {
                    let d = Coordinates { x, y };
                    let ghost elig_old = elig@;
                    proof {
                        assert(!elig_old.contains(d));
                        crate::counting::lemma_push_no_duplicates(elig_old, d);
                    }
                    elig.push(d);
                    proof {
                        crate::counting::lemma_push_contains(elig_old, d);
                        assert forall|e: Coordinates| #[trigger] elig@.contains(e) implies (
                        cell_eligible(width, height, safe_origin, e.x as int, e.y as int) && (e.y
                            < y || (e.y == y && e.x < x + 1))) by {
                            assert(elig_old.contains(e) || e == d);
                        }
                        assert forall|e: Coordinates|
                            (cell_eligible(width, height, safe_origin, e.x as int, e.y as int) && (
                            e.y < y || (e.y == y && e.x < x + 1))) implies #[trigger] elig@.contains(
                            e,
                        ) by {
                            if e.y == y && e.x == x {
                                assert(e == d);
                            } else {
                                assert(elig_old.contains(e));
                            }
                        }
                    }
                } else {
                    proof {
                        assert forall|e: Coordinates|
                            (cell_eligible(width, height, safe_origin, e.x as int, e.y as int) && (
                            e.y < y || (e.y == y && e.x < x + 1))) implies #[trigger] elig@.contains(
                            e,
                        ) by {
                            if e.y == y && e.x == x {
                                assert(e == Coordinates { x, y });
                                assert(!cell_eligible(
                                    width,
                                    height,
                                    safe_origin,
                                    x as int,
                                    y as int,
                                ));
                            }
                        }
                    }
                }
                x = x + 1;
            }
            y = y + 1;
        }
        if (mine_count as usize) > elig.len() {
            return Err(ConfigError::TooManyBombs);
        }
        let ghost total: int = elig@.len() as int;
        let mut bombs: Vec<Coordinates> = Vec::new();
        let mut k: usize = 0;
        while k < mine_count as usize
            invariant
                width >= 1,
                height >= 1,
                k <= mine_count,
                elig@.no_duplicates(),
                bombs@.no_duplicates(),
                bombs@.len() == k,
                elig@.len() == total - k,
                mine_count <= total,
                forall|d: Coordinates|
                    #[trigger] elig@.contains(d) ==> cell_eligible(
                        width,
                        height,
                        safe_origin,
                        d.x as int,
                        d.y as int,
                    ),
                forall|d: Coordinates|
                    #[trigger] bombs@.contains(d) ==> cell_eligible(
                        width,
                        height,
                        safe_origin,
                        d.x as int,
                        d.y as int,
                    ) && !elig@.contains(d),
            decreases mine_count - k,
        {
            let draw: usize = rand::random::<usize>();
            let j: usize = draw % elig.len();
            let ghost elig_old = elig@;
            let b: Coordinates = elig.swap_remove(j);
            proof {
                crate::counting::lemma_swap_remove_distinct(elig_old, j as int);
                assert(elig@ =~= crate::counting::swap_removed(elig_old, j as int));
            }
            let ghost bombs_old = bombs@;
            proof {
                assert(!bombs_old.contains(b));
                crate::counting::lemma_push_no_duplicates(bombs_old, b);
            }
            bombs.push(b);
            proof {
                crate::counting::lemma_push_contains(bombs_old, b);
                assert forall|e: Coordinates| #[trigger] elig@.contains(e) implies cell_eligible(
                    width,
                    height,
                    safe_origin,
                    e.x as int,
                    e.y as int,
                ) by {
                    assert(elig_old.contains(e));
                }
                assert forall|e: Coordinates| #[trigger] bombs@.contains(e) implies (cell_eligible(
                    width,
                    height,
                    safe_origin,
                    e.x as int,
                    e.y as int,
                ) && !elig@.contains(e)) by {
                    assert(bombs_old.contains(e) || e == b);
                    if e == b {
                        assert(!elig@.contains(e));
                    } else {
                        assert(!elig_old.contains(e));
                        if elig@.contains(e) {
                            assert(elig_old.contains(e));
                        }
                    }
                }
            }
            k = k + 1;
        }
        proof {
            assert forall|i: int| 0 <= i < bombs@.len() implies in_grid_c(
                width,
                height,
                #[trigger] bombs@[i],
            ) by {
                assert(bombs@.contains(bombs@[i]));
            }
        }
        match TileMap::from_bomb_coordinates(width, height, &bombs) {
            Ok(m) => {
                proof {
                    if safe_origin is Some {
                        let o = safe_origin->0;
                        assert forall|x: int, y: int|
                            in_grid(width, height, x, y) && in_safe_zone(o, x, y) implies !(
                        #[trigger] m.is_bomb(x, y)) by {
                            let d = coord(x, y);
                            assert(d.x as int == x && d.y as int == y);
                            if m.is_bomb(x, y) {
                                assert(bombs@.contains(d));
                            }
                        }
                    }
                }
                Ok(m)
            },
            Err(e) => Err(e),
        }
    }

    /// All bomb positions of the round, each exactly once; consumed at
    /// game end to reveal the remaining bombs.
    pub fn get_all_bomb_coordinates(&self) -> (r: Vec<Coordinates>)
        requires
            self.wf(),
        ensures
            r@.no_duplicates(),
            forall|d: Coordinates|
                #[trigger] r@.contains(d) <==> (in_grid_c(self.width, self.height, d)
                    && self.is_bomb(d.x as int, d.y as int)),
    {
        let mut r: Vec<Coordinates> = Vec::new();
        let mut y: u16 = 0;
        while y < self.height
            invariant
                self.wf(),
                y <= self.height,
                r@.no_duplicates(),
                forall|d: Coordinates|
                    #[trigger] r@.contains(d) <==> (in_grid_c(self.width, self.height, d)
                        && self.is_bomb(d.x as int, d.y as int) && d.y < y),
            decreases self.height - y,
        {
            let mut x: u16 = 0;
            while x < self.width
                invariant
                    self.wf(),
                    y < self.height,
                    x <= self.width,
                    r@.no_duplicates(),
                    forall|d: Coordinates|
                        #[trigger] r@.contains(d) <==> (in_grid_c(self.width, self.height, d)
                            && self.is_bomb(d.x as int, d.y as int) && (d.y < y || (d.y == y && d.x
                            < x))),
                decreases self.width - x,
            {
                let c = Coordinates { x, y };
                if self.is_bomb_at(c) {
                    let ghost r_old = r@;
                    proof {
                        assert(!r_old.contains(c));
                        crate::counting::lemma_push_no_duplicates(r_old, c);
                    }
                    r.push(c);
                    proof {
                        crate::counting::lemma_push_contains(r_old, c);
                        assert forall|e: Coordinates| #[trigger] r@.contains(e) implies (in_grid_c(
                            self.width,
                            self.height,
                            e,
                        ) && self.is_bomb(e.x as int, e.y as int) && (e.y < y || (e.y == y && e.x
                            < x + 1))) by {
                            assert(r_old.contains(e) || e == c);
                        }
                        assert forall|e: Coordinates|
                            (in_grid_c(self.width, self.height, e) && self.is_bomb(
                                e.x as int,
                                e.y as int,
                            ) && (e.y < y || (e.y == y && e.x < x + 1))) implies
                        #[trigger] r@.contains(e) by {
                            if e.y == y && e.x == x {
                                assert(e == c);
                            } else {
                                assert(r_old.contains(e));
                            }
                        }
                    }
                } else {
                    proof {
                        assert forall|e: Coordinates|
                            (in_grid_c(self.width, self.height, e) && self.is_bomb(
                                e.x as int,
                                e.y as int,
                            ) && (e.y < y || (e.y == y && e.x < x + 1))) implies
                        #[trigger] r@.contains(e) by {
                            if e.y == y && e.x == x {
                                assert(e == c);
                            }
                        }
                    }
                }
                x = x + 1;
            }
            y = y + 1;
        }
        r
    }
}

/// Counts the bombs among the in-grid neighbors of `(x, y)` in the
/// bomb indicator grid.
fn count_neighbors(grid: &Vec<bool>, width: u16, height: u16, x: u16, y: u16) -> (n: u8)
    requires
        grid@.len() == grid_area(width, height),
        x < width,
        y < height,
    ensures
        n as int == neighbor_bombs(grid@, width, height, x as int, y as int),
{
    let mut n: u8 = 0;
    let deltas: [(i8, i8); 8] = [
        (-1, -1),
        (0, -1),
        (1, -1),
        (-1, 0),
        (1, 0),
        (-1, 1),
        (0, 1),
        (1, 1),
    ];
    let c = Coordinates { x, y };
    let ghost gx: int = x as int;
    let ghost gy: int = y as int;
    let mut k: usize = 0;
    while k < 8
        invariant
            0 <= k <= 8,
            grid@.len() == grid_area(width, height),
            x < width,
            y < height,
            c.x == x && c.y == y,
            gx == x as int && gy == y as int,
            deltas@ =~= seq![
                (-1i8, -1i8),
                (0i8, -1i8),
                (1i8, -1i8),
                (-1i8, 0i8),
                (1i8, 0i8),
                (-1i8, 1i8),
                (0i8, 1i8),
                (1i8, 1i8),
            ],
            n <= k,
            n as int == partial_neighbor_bombs(grid@, width, height, gx, gy, k as int),
        decreases 8 - k,
    {
        let (dx, dy): (i8, i8) = deltas[k];
        match c.checked_offset(dx, dy, width, height) {
            Some(d) => {
                proof {
                    lemma_idx_of_in_range(width, height, d.x as int, d.y as int);
                }
                let i: usize = index_in(width, d);
                if grid[i] {
                    n = n + 1;
                }
            },
            None => {},
        }
        k = k + 1;
    }
    proof {
        assert(partial_neighbor_bombs(grid@, width, height, gx, gy, 8) == neighbor_bombs(
            grid@,
            width,
            height,
            gx,
            gy,
        ));
    }
    n
}

/// The first `k` terms, in the fixed 8-direction order, of the
/// neighbor-bomb sum of `(x, y)`.
pub open spec fn partial_neighbor_bombs(
    mines: Seq<bool>,
    width: u16,
    height: u16,
    x: int,
    y: int,
    k: int,
) -> int {
    (if k >= 1 {
        bomb_ind(mines, width, height, x - 1, y - 1)
    } else {
        0
    }) + (if k >= 2 {
        bomb_ind(mines, width, height, x, y - 1)
    } else {
        0
    }) + (if k >= 3 {
        bomb_ind(mines, width, height, x + 1, y - 1)
    } else {
        0
    }) + (if k >= 4 {
        bomb_ind(mines, width, height, x - 1, y)
    } else {
        0
    }) + (if k >= 5 {
        bomb_ind(mines, width, height, x + 1, y)
    } else {
        0
    }) + (if k >= 6 {
        bomb_ind(mines, width, height, x - 1, y + 1)
    } else {
        0
    }) + (if k >= 7 {
        bomb_ind(mines, width, height, x, y + 1)
    } else {
        0
    }) + (if k >= 8 {
        bomb_ind(mines, width, height, x + 1, y + 1)
    } else {
        0
    })
}

/// The in-grid cell `d` is safe with an adjacent-bomb count of zero:
/// the cells a flood fill expands through.
pub open spec fn zero_at(m: TileMap, d: Coordinates) -> bool {
    in_grid_c(m.width, m.height, d) && m.tile_at(d.x as int, d.y as int) == Tile::Safe(0u8)
}

/// No neighbor of a zero-count cell holds a bomb.
pub proof fn lemma_zero_cell_neighbors(m: TileMap, e: Coordinates, d: Coordinates)
    requires
        m.wf(),
        zero_at(m, e),
        in_grid_c(m.width, m.height, d),
        adjacent_c(e, d),
    ensures
        !m.is_bomb(d.x as int, d.y as int),
{
    let mines = m.mine_seq();
    let ex = e.x as int;
    let ey = e.y as int;
    assert(m.tile_at(ex, ey) == Tile::Safe(0u8));
    assert(neighbor_bombs(mines, m.width, m.height, ex, ey) == 0);
    lemma_idx_of_in_range(m.width, m.height, d.x as int, d.y as int);
    if m.is_bomb(d.x as int, d.y as int) {
        assert(mines[idx_of(m.width, d.x as int, d.y as int)]);
        assert(bomb_ind(mines, m.width, m.height, d.x as int, d.y as int) == 1);
        let dx = d.x as int - ex;
        let dy = d.y as int - ey;
        assert(-1 <= dx <= 1 && -1 <= dy <= 1 && !(dx == 0 && dy == 0));
        assert(d.x as int == ex + dx && d.y as int == ey + dy);
        assert(false);
    }
}

/// In a bomb-free indicator grid every indicator term is zero.
proof fn lemma_bomb_ind_zero(mines: Seq<bool>, width: u16, height: u16, x: int, y: int)
    requires
        mines.len() == grid_area(width, height),
        forall|i: int| 0 <= i < mines.len() ==> !(#[trigger] mines[i]),
    ensures
        bomb_ind(mines, width, height, x, y) == 0,
{
    if in_grid(width, height, x, y) {
        lemma_idx_of_in_range(width, height, x, y);
    }
}

/// On a map with no bombs at all, every in-grid cell is a zero-count
/// safe cell.
pub proof fn lemma_no_bombs_all_zero(m: TileMap, d: Coordinates)
    requires
        m.wf(),
        m.bomb_count == 0,
        in_grid_c(m.width, m.height, d),
    ensures
        zero_at(m, d),
{
    let mines = m.mine_seq();
    crate::counting::lemma_count_true_zero(mines, mines.len() as int);
    let x = d.x as int;
    let y = d.y as int;
    lemma_idx_of_in_range(m.width, m.height, x, y);
    assert(!mines[idx_of(m.width, x, y)]);
    lemma_bomb_ind_zero(mines, m.width, m.height, x - 1, y - 1);
    lemma_bomb_ind_zero(mines, m.width, m.height, x, y - 1);
    lemma_bomb_ind_zero(mines, m.width, m.height, x + 1, y - 1);
    lemma_bomb_ind_zero(mines, m.width, m.height, x - 1, y);
    lemma_bomb_ind_zero(mines, m.width, m.height, x + 1, y);
    lemma_bomb_ind_zero(mines, m.width, m.height, x - 1, y + 1);
    lemma_bomb_ind_zero(mines, m.width, m.height, x, y + 1);
    lemma_bomb_ind_zero(mines, m.width, m.height, x + 1, y + 1);
    assert(neighbor_bombs(mines, m.width, m.height, x, y) == 0);
    assert(m.tile_at(x, y) == Tile::Safe(0u8));
}

/// Row-major index of an in-grid coordinate, as a machine integer.
pub fn index_in(width: u16, c: Coordinates) -> (i: usize)
    requires
        c.x < width,
    ensures
        i as int == idx_of(width, c.x as int, c.y as int),
{
    proof {
        assert(c.y as int * width as int <= 0xfffe_0001) by (nonlinear_arith)
            requires
                c.y as int <= 0xffff,
                width as int <= 0xffff,
        {}
    }
    c.y as usize * width as usize + c.x as usize
}

} // verus!
