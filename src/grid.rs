//! The board as the search sees it: tiles, search cells, and routes over them.
use vstd::prelude::*;
use crate::geometry::{UVector2, MAX_SIZE, adjacent};

verus! {

/// What occupies one square of the board.
#[derive(Debug, Clone, Copy, PartialEq, Eq, Structural)]
pub enum Tile {
    Free,
    Wall,
    Tavern,
    /// A mine and the id of the hero that owns it, if any.
    Mine(Option<u64>),
    /// A hero standing on the square, by id.
    Hero(u64),
}

/// A square board of tiles, indexed `tiles[x][y]`.
#[derive(Debug, Clone)]
pub struct Board {
    pub size: usize,
    pub tiles: Vec<Vec<Tile>>,
}

impl Board {
    pub open spec fn wf(&self) -> bool {
        &&& self.size <= MAX_SIZE
        &&& self.tiles@.len() == self.size
        &&& forall|x: int| 0 <= x < self.size ==> (#[trigger] self.tiles@[x])@.len() == self.size
    }

    pub open spec fn tile_spec(&self, p: UVector2) -> Tile {
        self.tiles@[p.x as int]@[p.y as int]
    }

    /// Whether the board is square with side `size`, and not too large.
    pub fn is_valid(&self) -> (r: bool)
        ensures
            r == self.wf(),
    {
        if self.size > MAX_SIZE || self.tiles.len() != self.size {
            return false;
        }
        let mut x: usize = 0;
        while x < self.tiles.len()
            invariant
                x <= self.tiles@.len(),
                self.tiles@.len() == self.size,
                forall|i: int| 0 <= i < x ==> (#[trigger] self.tiles@[i])@.len() == self.size,
            decreases self.tiles@.len() - x,
        {
            if self.tiles[x].len() != self.size {
                return false;
            }
            x = x + 1;
        }
        true
    }
}

/// Search-time record of one square: its tile, its position, the square it
/// was reached from, and the costs `g` (so far), `h` (estimate) and `f`.
#[derive(Debug, Clone, Copy, PartialEq, Eq, Structural)]
pub struct Cell {
    pub tile: Tile,
    pub pos: UVector2,
    pub parent_pos: UVector2,
    pub f: u64,
    pub g: u64,
    pub h: u64,
}

/// A board turned into fresh search cells, indexed `grid[x][y]`.
#[derive(Debug, Clone)]
pub struct GameMap {
    pub size: usize,
    pub grid: Vec<Vec<Cell>>,
}

pub open spec fn in_bounds(p: UVector2, n: int) -> bool {
    p.x < n && p.y < n
}

/// Position of `p` in the flat, row-major table of an `n` by `n` board.
pub open spec fn flat_index(p: UVector2, n: int) -> int {
    p.x * n + p.y
}

pub broadcast proof fn lemma_flat_index_bound(p: UVector2, n: int)
    requires
        in_bounds(p, n),
    ensures
        0 <= #[trigger] flat_index(p, n) < n * n,
{
    assert(p.x * n + p.y < n * n) by (nonlinear_arith)
        requires
            0 <= p.x < n,
            0 <= p.y < n,
    ;
    assert(0 <= p.x * n) by (nonlinear_arith)
        requires
            0 <= p.x,
            0 <= n,
    ;
}

/// The cell stored for position `p`.
pub open spec fn cell_at(cells: Seq<Vec<Cell>>, p: UVector2) -> Cell {
    cells[p.x as int]@[p.y as int]
}

/// `cells` is an `n` by `n` table whose cell at `[x][y]` sits at `(x, y)`.
pub open spec fn grid_wf(cells: Seq<Vec<Cell>>, n: int) -> bool {
    &&& cells.len() == n
    &&& forall|x: int| 0 <= x < n ==> (#[trigger] cells[x])@.len() == n
    &&& forall|p: UVector2| in_bounds(p, n) ==> (#[trigger] cell_at(cells, p)).pos == p
}

/// A unit may enter `p` on its way to `target`: free ground, or the target itself.
pub open spec fn passable(tile: Tile, p: UVector2, target: UVector2) -> bool {
    p == target || tile == Tile::Free
}

impl GameMap {
    pub open spec fn wf(&self) -> bool {
        &&& self.size <= MAX_SIZE
        &&& grid_wf(self.grid@, self.size as int)
    }

    /// The map holds the board's tiles on a grid of the same side.
    pub open spec fn models(&self, board: Board) -> bool {
        &&& self.wf()
        &&& self.size == board.size
        &&& forall|p: UVector2| in_bounds(p, board.size as int) ==> #[trigger] self.tile_at(p) == board.tile_spec(p)
    }

    pub open spec fn tile_at(&self, p: UVector2) -> Tile {
        cell_at(self.grid@, p).tile
    }

    pub open spec fn can_enter(&self, p: UVector2, target: UVector2) -> bool {
        passable(self.tile_at(p), p, target)
    }

    /// `w` is a walk towards `target`: on the board, one cardinal step at a
    /// time, entering only enterable squares (the first square is exempt).
    pub open spec fn is_walk(&self, target: UVector2, w: Seq<UVector2>) -> bool {
        &&& w.len() >= 1
        &&& forall|i: int| 0 <= i < w.len() ==> in_bounds(#[trigger] w[i], self.size as int)
        &&& forall|i: int|
            1 <= i < w.len() ==> adjacent(w[i - 1], #[trigger] w[i]) && self.can_enter(w[i], target)
    }

    /// `steps` leads from `start` to `target`: the squares entered, in order,
    /// ending at `target`.
    pub open spec fn is_route(&self, start: UVector2, target: UVector2, steps: Seq<UVector2>) -> bool {
        &&& self.is_walk(target, seq![start] + steps)
        &&& (seq![start] + steps).last() == target
    }

    pub open spec fn reachable(&self, start: UVector2, target: UVector2) -> bool {
        exists|steps: Seq<UVector2>| self.is_route(start, target, steps)
    }

    /// `steps` is a route from `start` to `target` and none is shorter.
    pub open spec fn is_shortest_route(&self, start: UVector2, target: UVector2, steps: Seq<UVector2>) -> bool {
        &&& self.is_route(start, target, steps)
        &&& forall|other: Seq<UVector2>| #[trigger] self.is_route(start, target, other) ==> steps.len() <= other.len()
    }
}

/// The fresh cell for position `(x, y)` of `board`: its own parent, all costs zero.
pub open spec fn fresh_cell(board: Board, x: int, y: int) -> Cell {
    Cell {
        tile: board.tiles@[x]@[y],
        pos: UVector2 { x: x as usize, y: y as usize },
        parent_pos: UVector2 { x: x as usize, y: y as usize },
        f: 0,
        g: 0,
        h: 0,
    }
}

impl GameMap {
    /// Builds the grid of fresh cells for `board`, keeping every tile as it is.
    pub fn from_board(board: &Board) -> (r: GameMap)
        requires
            board.wf(),
        ensures
            r.wf(),
            r.size == board.size,
            r.models(*board),
            forall|x: int, y: int|
                0 <= x < board.size && 0 <= y < board.size ==> #[trigger] r.grid@[x]@[y] == fresh_cell(*board, x, y),
    {
        let n = board.size;
        let mut cells: Vec<Vec<Cell>> = Vec::new();
        let mut x: usize = 0;
        while x < n
            invariant
                board.wf(),
                n == board.size,
                x <= n,
                cells@.len() == x,
                forall|i: int| 0 <= i < x ==> (#[trigger] cells@[i])@.len() == n,
                forall|i: int, j: int| 0 <= i < x && 0 <= j < n ==> #[trigger] cells@[i]@[j] == fresh_cell(*board, i, j),
            decreases n - x,
        {
            let mut row: Vec<Cell> = Vec::new();
            let mut y: usize = 0;
            while y < n
                invariant
                    board.wf(),
                    n == board.size,
                    x < n,
                    y <= n,
                    row@.len() == y,
                    forall|j: int| 0 <= j < y ==> #[trigger] row@[j] == fresh_cell(*board, x as int, j),
                decreases n - y,
            {
                let pos = UVector2 { x: x, y: y };
                row.push(Cell { tile: board.tiles[x][y], pos: pos, parent_pos: pos, f: 0, g: 0, h: 0 });
                y = y + 1;
            }
            cells.push(row);
            x = x + 1;
        }
        let r = GameMap { size: n, grid: cells };
        assert forall|p: UVector2| in_bounds(p, n as int) implies (#[trigger] cell_at(r.grid@, p)).pos == p by {
            assert(r.grid@[p.x as int]@[p.y as int] == fresh_cell(*board, p.x as int, p.y as int));
        }
        assert forall|p: UVector2| in_bounds(p, n as int) implies #[trigger] r.tile_at(p) == board.tile_spec(p) by {
            assert(r.grid@[p.x as int]@[p.y as int] == fresh_cell(*board, p.x as int, p.y as int));
        }
        r
    }
}

} // verus!
