//! A* search from one square to another over a `GameMap`.
use vstd::prelude::*;
use crate::geometry::{
    UVector2, IVector2, MAX_SIZE, STEP_COST, abs_diff, adjacent, heuristic, heuristic_spec, within_max,
    manhattan, lemma_manhattan_triangle,
};
use vstd::arithmetic::div_mod::lemma_fundamental_div_mod_converse;
use crate::grid::{
    Cell, GameMap, Tile, cell_at, flat_index, grid_wf, in_bounds, passable, lemma_flat_index_bound,
};

verus! {

/// `f` of a square that cannot be entered.
pub const BLOCKED: u64 = 0xffff_ffff_ffff_ffff;

/// Largest cost-so-far from which a neighbour's costs are computed.
pub const MAX_G: u64 = 0x1000_0000_0000_0000;

/// `cell` as a neighbour of `parent` on the way to `target`: one step dearer
/// than `parent`, with the Manhattan estimate, and `f` blocked where it
/// cannot be entered.
pub open spec fn neighbor_cell(parent: Cell, cell: Cell, target: UVector2) -> Cell {
    let g = parent.g + STEP_COST;
    let h = heuristic_spec(cell.pos, target);
    Cell {
        tile: cell.tile,
        pos: cell.pos,
        parent_pos: parent.pos,
        g: g as u64,
        h: h as u64,
        f: if passable(cell.tile, cell.pos, target) { (g + h) as u64 } else { BLOCKED },
    }
}

/// Computes the costs of `ref_cell` when reached from `cp`.
pub fn calc_neighbor(cp: &Cell, ref_cell: &Cell, target_pos: &UVector2) -> (r: Cell)
    requires
        cp.g <= MAX_G,
        within_max(ref_cell.pos),
        within_max(*target_pos),
    ensures
        r == neighbor_cell(*cp, *ref_cell, *target_pos),
{
    let mut cell = *ref_cell;
    cell.h = heuristic(&cell.pos, target_pos);
    cell.g = cp.g + STEP_COST;
    cell.f = if cell.tile == Tile::Free || cell.pos == *target_pos {
        cell.g + cell.h
    } else {
        BLOCKED
    };
    cell.parent_pos = cp.pos;
    cell
}

/// Whether `(row, column)` lies on a board of side `grid_size`.
pub fn cell_index_valid(row: isize, column: isize, grid_size: usize) -> (r: bool)
    requires
        grid_size <= MAX_SIZE,
    ensures
        r == (0 <= row < grid_size && 0 <= column < grid_size),
{
    let size = grid_size as isize;
    0 <= row && row < size && 0 <= column && column < size
}

/// `c` is a square next to `cp` that can be entered, with its costs when
/// reached from `cp`.
pub open spec fn is_neighbor_of(cells: Seq<Vec<Cell>>, n: int, cp: Cell, target: UVector2, c: Cell) -> bool {
    &&& in_bounds(c.pos, n)
    &&& adjacent(cp.pos, c.pos)
    &&& passable(cell_at(cells, c.pos).tile, c.pos, target)
    &&& c == neighbor_cell(cp, cell_at(cells, c.pos), target)
}

/// The neighbour at `(row, column)`, if it is on the board and can be entered.
pub open spec fn offer(cells: Seq<Vec<Cell>>, n: int, cp: Cell, target: UVector2, row: int, column: int) -> Seq<Cell> {
    let p = UVector2 { x: row as usize, y: column as usize };
    if 0 <= row < n && 0 <= column < n && passable(cell_at(cells, p).tile, p, target) {
        seq![neighbor_cell(cp, cell_at(cells, p), target)]
    } else {
        Seq::empty()
    }
}

/// The enterable neighbours of `cp`, in the order south, west, north, east.
pub open spec fn neighbor_seq(cells: Seq<Vec<Cell>>, n: int, cp: Cell, target: UVector2) -> Seq<Cell> {
    let x = cp.pos.x as int;
    let y = cp.pos.y as int;
    offer(cells, n, cp, target, x, y + 1) + offer(cells, n, cp, target, x + 1, y) + offer(
        cells,
        n,
        cp,
        target,
        x,
        y - 1,
    ) + offer(cells, n, cp, target, x - 1, y)
}

/// Appends the neighbour at `(row, column)` to `out` when it is on the board
/// and can be entered.
fn push_neighbor(
    out: &mut Vec<Cell>,
    cp: &Cell,
    row: isize,
    column: isize,
    target_pos: &UVector2,
    cells: &Vec<Vec<Cell>>,
    grid_size: usize,
)
    requires
        grid_wf(cells@, grid_size as int),
        grid_size <= MAX_SIZE,
        in_bounds(cp.pos, grid_size as int),
        cp.g <= MAX_G,
        within_max(*target_pos),
        abs_diff(row as int, cp.pos.x as int) + abs_diff(column as int, cp.pos.y as int) == 1,
    ensures
        final(out)@ == old(out)@ + offer(cells@, grid_size as int, *cp, *target_pos, row as int, column as int),
        final(out)@.len() == old(out)@.len() || final(out)@.len() == old(out)@.len() + 1,
        forall|k: int| 0 <= k < old(out)@.len() ==> final(out)@[k] == old(out)@[k],
        final(out)@.len() == old(out)@.len() + 1 ==> {
            &&& is_neighbor_of(cells@, grid_size as int, *cp, *target_pos, final(out)@[old(out)@.len() as int])
            &&& final(out)@[old(out)@.len() as int].pos == (UVector2 { x: row as usize, y: column as usize })
        },
        (0 <= row < grid_size && 0 <= column < grid_size && passable(
            cell_at(cells@, UVector2 { x: row as usize, y: column as usize }).tile,
            UVector2 { x: row as usize, y: column as usize },
            *target_pos,
        )) ==> final(out)@.len() == old(out)@.len() + 1,
{
    if cell_index_valid(row, column, grid_size) {
        let p = UVector2 { x: row as usize, y: column as usize };
        let ref_cell = &cells[p.x][p.y];
        if ref_cell.tile == Tile::Free || p == *target_pos {
            out.push(calc_neighbor(cp, ref_cell, target_pos));
        }
    }
}

/// The squares one cardinal step from `cp` that are on the board and can be
/// entered, each with its costs when reached from `cp`.
pub fn calc_neighbors(cp: &Cell, target_pos: &UVector2, cells: &Vec<Vec<Cell>>, grid_size: usize) -> (r: Vec<Cell>)
    requires
        grid_wf(cells@, grid_size as int),
        grid_size <= MAX_SIZE,
        in_bounds(cp.pos, grid_size as int),
        cp.g <= MAX_G,
        within_max(*target_pos),
    ensures
        r@ == neighbor_seq(cells@, grid_size as int, *cp, *target_pos),
        r@.len() <= 4,
        forall|k: int|
            0 <= k < r@.len() ==> is_neighbor_of(cells@, grid_size as int, *cp, *target_pos, #[trigger] r@[k]),
        forall|p: UVector2|
            in_bounds(p, grid_size as int) && #[trigger] adjacent(cp.pos, p) && passable(
                cell_at(cells@, p).tile,
                p,
                *target_pos,
            ) ==> exists|k: int| 0 <= k < r@.len() && r@[k].pos == p,
{
    let c = IVector2::from(&cp.pos);
    let mut out: Vec<Cell> = Vec::new();
    assert(out@ + offer(cells@, grid_size as int, *cp, *target_pos, c.x as int, c.y + 1) =~= offer(
        cells@,
        grid_size as int,
        *cp,
        *target_pos,
        c.x as int,
        c.y + 1,
    ));
    push_neighbor(&mut out, cp, c.x, c.y + 1, target_pos, cells, grid_size);
    let ghost o1 = out@;
    push_neighbor(&mut out, cp, c.x + 1, c.y, target_pos, cells, grid_size);
    let ghost o2 = out@;
    push_neighbor(&mut out, cp, c.x, c.y - 1, target_pos, cells, grid_size);
    let ghost o3 = out@;
    push_neighbor(&mut out, cp, c.x - 1, c.y, target_pos, cells, grid_size);
    proof {
        assert forall|p: UVector2|
            in_bounds(p, grid_size as int) && #[trigger] adjacent(cp.pos, p) && passable(
                cell_at(cells@, p).tile,
                p,
                *target_pos,
            ) implies exists|k: int| 0 <= k < out@.len() && out@[k].pos == p by {
            if p.x == cp.pos.x && p.y == cp.pos.y + 1 {
                assert(out@[0].pos == p);
            } else if p.x == cp.pos.x + 1 && p.y == cp.pos.y {
                assert(out@[o1.len() as int].pos == p);
            } else if p.x == cp.pos.x && p.y + 1 == cp.pos.y {
                assert(out@[o2.len() as int].pos == p);
            } else {
                assert(out@[o3.len() as int].pos == p);
            }
        }
    }
    out
}

proof fn lemma_flat_index_injective(p: UVector2, q: UVector2, n: int)
    requires
        in_bounds(p, n),
        in_bounds(q, n),
        flat_index(p, n) == flat_index(q, n),
    ensures
        p == q,
{
    if p.x < q.x {
        assert(p.x * n + n <= q.x * n) by (nonlinear_arith)
            requires
                p.x + 1 <= q.x,
                0 <= n,
        ;
    } else if q.x < p.x {
        assert(q.x * n + n <= p.x * n) by (nonlinear_arith)
            requires
                q.x + 1 <= p.x,
                0 <= n,
        ;
    }
}

broadcast use lemma_flat_index_bound;

/// Number of `true` entries.
pub open spec fn count_true(s: Seq<bool>) -> nat
    decreases s.len(),
{
    if s.len() == 0 {
        0
    } else {
        count_true(s.drop_last()) + if s.last() { 1nat } else { 0nat }
    }
}

proof fn lemma_count_true_le(s: Seq<bool>)
    ensures
        count_true(s) <= s.len(),
    decreases s.len(),
{
    if s.len() > 0 {
        lemma_count_true_le(s.drop_last());
    }
}

proof fn lemma_count_true_set(s: Seq<bool>, i: int)
    requires
        0 <= i < s.len(),
        !s[i],
    ensures
        count_true(s.update(i, true)) == count_true(s) + 1,
    decreases s.len(),
{
    let u = s.update(i, true);
    if i == s.len() - 1 {
        assert(u.drop_last() =~= s.drop_last());
    } else {
        assert(u.drop_last() =~= s.drop_last().update(i, true));
        lemma_count_true_set(s.drop_last(), i);
    }
}

proof fn lemma_walk_prefix(map: GameMap, target: UVector2, w: Seq<UVector2>, k: int)
    requires
        map.is_walk(target, w),
        1 <= k <= w.len(),
    ensures
        map.is_walk(target, w.subrange(0, k)),
{
    let v = w.subrange(0, k);
    assert forall|i: int| 0 <= i < v.len() implies in_bounds(#[trigger] v[i], map.size as int) by {
        assert(v[i] == w[i]);
    }
    assert forall|i: int| 1 <= i < v.len() implies adjacent(v[i - 1], #[trigger] v[i]) && map.can_enter(v[i], target) by {
        assert(v[i] == w[i]);
        assert(v[i - 1] == w[i - 1]);
    }
}

/// A walk of `m` steps ends at most `m` squares away from where it started.
proof fn lemma_walk_distance(map: GameMap, target: UVector2, w: Seq<UVector2>, j: int)
    requires
        map.is_walk(target, w),
        0 <= j < w.len(),
    ensures
        manhattan(w[j], w.last()) <= w.len() - 1 - j,
    decreases w.len() - j,
{
    if j < w.len() - 1 {
        lemma_walk_distance(map, target, w, j + 1);
        assert(adjacent(w[j + 1 - 1], w[j + 1]));
        lemma_manhattan_triangle(w[j], w[j + 1], w.last());
    }
}

/// Where a walk leaves a set of squares that holds its first square but not
/// its `k`-th, some step goes from inside the set to outside it.
proof fn lemma_first_unclosed(closed: Seq<bool>, n: int, w: Seq<UVector2>, k: int) -> (j: int)
    requires
        0 < k < w.len(),
        closed[flat_index(w[0], n)],
        !closed[flat_index(w[k], n)],
    ensures
        1 <= j <= k,
        closed[flat_index(w[j - 1], n)],
        !closed[flat_index(w[j], n)],
    decreases k,
{
    if closed[flat_index(w[k - 1], n)] {
        k
    } else {
        lemma_first_unclosed(closed, n, w, k - 1)
    }
}

/// The flat table holds, at each index, the cell of the matching square.
spec fn nodes_wf(map: GameMap, nodes: Seq<Cell>) -> bool {
    let n = map.size as int;
    &&& nodes.len() == n * n
    &&& forall|i: int|
        0 <= i < n * n ==> {
            &&& in_bounds((#[trigger] nodes[i]).pos, n)
            &&& flat_index(nodes[i].pos, n) == i
            &&& nodes[i].tile == map.tile_at(nodes[i].pos)
        }
}

proof fn lemma_node_pos(map: GameMap, nodes: Seq<Cell>, p: UVector2)
    requires
        nodes_wf(map, nodes),
        in_bounds(p, map.size as int),
    ensures
        0 <= flat_index(p, map.size as int) < nodes.len(),
        nodes[flat_index(p, map.size as int)].pos == p,
{
    let n = map.size as int;
    lemma_flat_index_bound(p, n);
    let q = nodes[flat_index(p, n)].pos;
    lemma_flat_index_injective(p, q, n);
}

/// The cell at `i` was reached from a finished neighbour, one step cheaper.
spec fn parent_ok(map: GameMap, target: UVector2, nodes: Seq<Cell>, closed: Seq<bool>, i: int) -> bool {
    let n = map.size as int;
    let pp = nodes[i].parent_pos;
    &&& in_bounds(pp, n)
    &&& closed[flat_index(pp, n)]
    &&& adjacent(pp, nodes[i].pos)
    &&& map.can_enter(nodes[i].pos, target)
    &&& nodes[i].g == nodes[flat_index(pp, n)].g + STEP_COST
}

/// Every finished square has a cost no walk from `start` beats.
spec fn settled(map: GameMap, start: UVector2, target: UVector2, nodes: Seq<Cell>, closed: Seq<bool>) -> bool {
    let n = map.size as int;
    forall|w: Seq<UVector2>|
        #[trigger] map.is_walk(target, w) && w[0] == start && closed[flat_index(w.last(), n)]
            ==> nodes[flat_index(w.last(), n)].g <= STEP_COST * (w.len() - 1)
}

/// Each enterable neighbour of the finished square `i` is finished, or open
/// at a cost no more than one step above that of `i`.
spec fn frontier_ok(
    map: GameMap,
    target: UVector2,
    nodes: Seq<Cell>,
    open: Seq<bool>,
    closed: Seq<bool>,
    i: int,
) -> bool {
    let n = map.size as int;
    forall|p: UVector2|
        in_bounds(p, n) && #[trigger] adjacent(nodes[i].pos, p) && map.can_enter(p, target) ==> closed[flat_index(p, n)] || (
        open[flat_index(p, n)] && nodes[flat_index(p, n)].g <= nodes[i].g + STEP_COST)
}

/// The bookkeeping of one search; the frontier condition is waived for the
/// square `skip` while its neighbours are being processed.
spec fn search_inv(
    map: GameMap,
    start: UVector2,
    target: UVector2,
    nodes: Seq<Cell>,
    open: Seq<bool>,
    closed: Seq<bool>,
    n_closed: int,
    skip: int,
) -> bool {
    let n = map.size as int;
    let s = flat_index(start, n);
    &&& nodes_wf(map, nodes)
    &&& open.len() == n * n
    &&& closed.len() == n * n
    &&& n_closed == count_true(closed)
    &&& forall|i: int| 0 <= i < n * n ==> !(#[trigger] open[i] && closed[i])
    &&& open[s] || closed[s]
    &&& closed[s] || forall|i: int| 0 <= i < n * n && #[trigger] open[i] ==> i == s
    &&& nodes[s].g == 0
    &&& forall|i: int|
        0 <= i < n * n && (#[trigger] open[i] || closed[i]) ==> {
            &&& nodes[i].g <= STEP_COST * n_closed
            &&& nodes[i].h == heuristic_spec(nodes[i].pos, target)
            &&& nodes[i].f == nodes[i].g + nodes[i].h
        }
    &&& forall|i: int|
        0 <= i < n * n && (open[i] || closed[i]) && i != s ==> #[trigger] parent_ok(map, target, nodes, closed, i)
    &&& settled(map, start, target, nodes, closed)
    &&& forall|i: int| 0 <= i < n * n && closed[i] && i != skip ==> #[trigger] frontier_ok(map, target, nodes, open, closed, i)
}

/// `a` at index `ia` is picked before `b` at index `ib`: lower `f`, then
/// lower `h`, then lower index.
pub open spec fn picked_before(a: Cell, ia: int, b: Cell, ib: int) -> bool {
    a.f < b.f || (a.f == b.f && (a.h < b.h || (a.h == b.h && ia <= ib)))
}

/// The open cell to expand next, if any.
fn select_best(nodes: &Vec<Cell>, open: &Vec<bool>) -> (r: Option<usize>)
    requires
        nodes@.len() == open@.len(),
    ensures
        match r {
            None => forall|i: int| 0 <= i < open@.len() ==> !open@[i],
            Some(b) => {
                &&& b < open@.len()
                &&& open@[b as int]
                &&& forall|i: int|
                    0 <= i < open@.len() && open@[i] ==> picked_before(nodes@[b as int], b as int, nodes@[i], i)
            },
        },
{
    let mut best: Option<usize> = None;
    let mut i: usize = 0;
    while i < open.len()
        invariant
            nodes@.len() == open@.len(),
            i <= open@.len(),
            match best {
                None => forall|k: int| 0 <= k < i ==> !open@[k],
                Some(b) => {
                    &&& b < i
                    &&& open@[b as int]
                    &&& forall|k: int|
                        0 <= k < i && open@[k] ==> picked_before(nodes@[b as int], b as int, nodes@[k], k)
                },
            },
        decreases open@.len() - i,
    {
        if open[i] {
            match best {
                None => {
                    best = Some(i);
                },
                Some(b) => {
                    let cb = &nodes[b];
                    let ci = &nodes[i];
                    if ci.f < cb.f || (ci.f == cb.f && ci.h < cb.h) {
                        best = Some(i);
                    }
                },
            }
        }
        i = i + 1;
    }
    best
}

/// The grid's cells laid out row after row.
fn flatten_grid(map: &GameMap) -> (nodes: Vec<Cell>)
    requires
        map.wf(),
    ensures
        nodes_wf(*map, nodes@),
        nodes@ == flat_cells(*map),
        forall|i: int| 0 <= i < nodes@.len() ==> #[trigger] nodes@[i] == cell_at(map.grid@, nodes@[i].pos),
{
    let n = map.size;
    let mut nodes: Vec<Cell> = Vec::new();
    let mut x: usize = 0;
    while x < n
        invariant
            map.wf(),
            n == map.size,
            x <= n,
            nodes@.len() == x * n,
            forall|i: int|
                0 <= i < nodes@.len() ==> {
                    &&& in_bounds((#[trigger] nodes@[i]).pos, n as int)
                    &&& flat_index(nodes@[i].pos, n as int) == i
                    &&& nodes@[i] == cell_at(map.grid@, nodes@[i].pos)
                },
        decreases n - x,
    {
        let mut y: usize = 0;
        while y < n
            invariant
                map.wf(),
                n == map.size,
                x < n,
                y <= n,
                nodes@.len() == x * n + y,
                forall|i: int|
                    0 <= i < nodes@.len() ==> {
                        &&& in_bounds((#[trigger] nodes@[i]).pos, n as int)
                        &&& flat_index(nodes@[i].pos, n as int) == i
                        &&& nodes@[i] == cell_at(map.grid@, nodes@[i].pos)
                    },
            decreases n - y,
        {
            let ghost p = UVector2 { x: x, y: y };
            assert(cell_at(map.grid@, p).pos == p);
            nodes.push(map.grid[x][y]);
            y = y + 1;
        }
        assert(x * n + n == (x + 1) * n) by (nonlinear_arith);
        x = x + 1;
    }
    proof {
        assert forall|i: int| 0 <= i < nodes@.len() implies nodes@[i] == flat_cells(*map)[i] by {
            let p = nodes@[i].pos;
            lemma_fundamental_div_mod_converse(i, n as int, p.x as int, p.y as int);
        }
        assert(nodes@ =~= flat_cells(*map));
    }
    nodes
}

/// The cell picked from the open set already has a cost no walk beats.
proof fn lemma_selection_settles(
    map: GameMap,
    start: UVector2,
    target: UVector2,
    nodes: Seq<Cell>,
    open: Seq<bool>,
    closed: Seq<bool>,
    n_closed: int,
    b: int,
)
    requires
        map.wf(),
        in_bounds(start, map.size as int),
        in_bounds(target, map.size as int),
        search_inv(map, start, target, nodes, open, closed, n_closed, -1),
        0 <= b < nodes.len(),
        open[b],
        forall|i: int| 0 <= i < nodes.len() && open[i] ==> picked_before(nodes[b], b, nodes[i], i),
    ensures
        forall|w: Seq<UVector2>|
            #[trigger] map.is_walk(target, w) && w[0] == start && flat_index(w.last(), map.size as int) == b
                ==> nodes[b].g <= STEP_COST * (w.len() - 1),
{
    let n = map.size as int;
    let s = flat_index(start, n);
    assert forall|w: Seq<UVector2>|
        #[trigger] map.is_walk(target, w) && w[0] == start && flat_index(w.last(), n) == b
        implies nodes[b].g <= STEP_COST * (w.len() - 1) by {
        if b != s {
            assert(closed[s]);
            assert(!closed[b]);
            let last = w.len() - 1;
            assert(in_bounds(w[last], n));
            let j = lemma_first_unclosed(closed, n, w, last);
            let pre = w[j - 1];
            let q = w[j];
            lemma_walk_prefix(map, target, w, j);
            let v = w.subrange(0, j);
            assert(v.last() == pre);
            assert(v[0] == start);
            assert(map.is_walk(target, v));
            assert(in_bounds(pre, n));
            assert(in_bounds(q, n));
            assert(adjacent(w[j - 1], w[j]));
            lemma_node_pos(map, nodes, pre);
            lemma_node_pos(map, nodes, q);
            lemma_node_pos(map, nodes, w[last]);
            let i = flat_index(pre, n);
            assert(frontier_ok(map, target, nodes, open, closed, i));
            assert(adjacent(nodes[i].pos, q));
            lemma_walk_distance(map, target, w, j);
            lemma_manhattan_triangle(q, w.last(), target);
            let iq = flat_index(q, n);
            assert(picked_before(nodes[b], b, nodes[iq], iq));
        }
    }
}

/// With nothing left to expand and the target unfinished, no route exists.
proof fn lemma_no_route(
    map: GameMap,
    start: UVector2,
    target: UVector2,
    nodes: Seq<Cell>,
    open: Seq<bool>,
    closed: Seq<bool>,
    n_closed: int,
)
    requires
        map.wf(),
        in_bounds(start, map.size as int),
        in_bounds(target, map.size as int),
        search_inv(map, start, target, nodes, open, closed, n_closed, -1),
        !closed[flat_index(target, map.size as int)],
        forall|i: int| 0 <= i < open.len() ==> !open[i],
    ensures
        !map.reachable(start, target),
{
    let n = map.size as int;
    let s = flat_index(start, n);
    lemma_flat_index_bound(start, n);
    assert forall|steps: Seq<UVector2>| !map.is_route(start, target, steps) by {
        if map.is_route(start, target, steps) {
            let w = seq![start] + steps;
            let last = w.len() - 1;
            assert(w[0] == start);
            assert(closed[s]);
            assert(w[last] == target);
            let j = lemma_first_unclosed(closed, n, w, last);
            let pre = w[j - 1];
            let q = w[j];
            assert(in_bounds(pre, n));
            assert(in_bounds(q, n));
            assert(adjacent(w[j - 1], w[j]));
            lemma_node_pos(map, nodes, pre);
            lemma_node_pos(map, nodes, q);
            let i = flat_index(pre, n);
            assert(frontier_ok(map, target, nodes, open, closed, i));
            assert(adjacent(nodes[i].pos, q));
        }
    }
}

/// Finishing the picked cell `b` keeps the bookkeeping, with the frontier
/// condition of `b` itself still to be established.
proof fn lemma_close(
    map: GameMap,
    start: UVector2,
    target: UVector2,
    nodes: Seq<Cell>,
    open: Seq<bool>,
    closed: Seq<bool>,
    n_closed: int,
    b: int,
)
    requires
        map.wf(),
        in_bounds(start, map.size as int),
        in_bounds(target, map.size as int),
        search_inv(map, start, target, nodes, open, closed, n_closed, -1),
        0 <= b < nodes.len(),
        open[b],
        forall|w: Seq<UVector2>|
            #[trigger] map.is_walk(target, w) && w[0] == start && flat_index(w.last(), map.size as int) == b
                ==> nodes[b].g <= STEP_COST * (w.len() - 1),
    ensures
        search_inv(map, start, target, nodes, open.update(b, false), closed.update(b, true), n_closed + 1, b),
        n_closed + 1 <= nodes.len(),
        closed.update(b, true)[flat_index(start, map.size as int)],
{
    let n = map.size as int;
    let s = flat_index(start, n);
    let open2 = open.update(b, false);
    let closed2 = closed.update(b, true);
    lemma_count_true_set(closed, b);
    lemma_count_true_le(closed2);
    assert forall|i: int|
        0 <= i < n * n && (open2[i] || closed2[i]) && i != s implies #[trigger] parent_ok(map, target, nodes, closed2, i) by {
        assert(parent_ok(map, target, nodes, closed, i));
    }
    assert forall|i: int|
        0 <= i < n * n && closed2[i] && i != b implies #[trigger] frontier_ok(map, target, nodes, open2, closed2, i) by {
        assert(frontier_ok(map, target, nodes, open, closed, i));
    }
    assert forall|w: Seq<UVector2>|
        #[trigger] map.is_walk(target, w) && w[0] == start && closed2[flat_index(w.last(), n)]
        implies nodes[flat_index(w.last(), n)].g <= STEP_COST * (w.len() - 1) by {
        if flat_index(w.last(), n) != b {
            assert(closed[flat_index(w.last(), n)]);
        }
    }
    assert(settled(map, start, target, nodes, closed2));
    assert forall|i: int| 0 <= i < n * n implies !(#[trigger] open2[i] && closed2[i]) by {
        assert(!(open[i] && closed[i]));
    }
    assert forall|i: int|
        0 <= i < n * n && (#[trigger] open2[i] || closed2[i]) implies {
            &&& nodes[i].g <= STEP_COST * (n_closed + 1)
            &&& nodes[i].h == heuristic_spec(nodes[i].pos, target)
            &&& nodes[i].f == nodes[i].g + nodes[i].h
        } by {
        assert(open[i] || closed[i]);
    }
}

/// The cells after offering `c` to the square `j`: a new open cell, a
/// cheaper way to an open cell, or no change.
pub open spec fn relaxed_nodes(nodes: Seq<Cell>, open: Seq<bool>, closed: Seq<bool>, j: int, c: Cell) -> Seq<Cell> {
    if closed[j] {
        nodes
    } else if open[j] {
        if nodes[j].g > c.g { nodes.update(j, c) } else { nodes }
    } else {
        nodes.update(j, c)
    }
}

pub open spec fn relaxed_open(open: Seq<bool>, closed: Seq<bool>, j: int) -> Seq<bool> {
    if !closed[j] && !open[j] { open.update(j, true) } else { open }
}

/// Offering a neighbour `c` of the finished cell `b` keeps the bookkeeping,
/// settles `c`'s square with respect to `b`, and never raises an open cost.
#[verifier::rlimit(30)]
proof fn lemma_relax(
    map: GameMap,
    start: UVector2,
    target: UVector2,
    nodes: Seq<Cell>,
    open: Seq<bool>,
    closed: Seq<bool>,
    n_closed: int,
    b: int,
    c: Cell,
)
    requires
        map.wf(),
        in_bounds(start, map.size as int),
        in_bounds(target, map.size as int),
        search_inv(map, start, target, nodes, open, closed, n_closed, b),
        0 <= b < nodes.len(),
        closed[b],
        closed[flat_index(start, map.size as int)],
        nodes[b].g <= MAX_G,
        nodes[b].g + STEP_COST <= STEP_COST * n_closed,
        is_neighbor_of(map.grid@, map.size as int, nodes[b], target, c),
    ensures
        ({
            let j = flat_index(c.pos, map.size as int);
            let nodes2 = relaxed_nodes(nodes, open, closed, j, c);
            let open2 = relaxed_open(open, closed, j);
            &&& 0 <= j < nodes.len()
            &&& search_inv(map, start, target, nodes2, open2, closed, n_closed, b)
            &&& nodes2[b] == nodes[b]
            &&& closed[j] || (open2[j] && nodes2[j].g <= nodes[b].g + STEP_COST)
            &&& forall|x: int| 0 <= x < nodes.len() && #[trigger] open[x] ==> open2[x] && nodes2[x].g <= nodes[x].g
        }),
{
    let n = map.size as int;
    let s = flat_index(start, n);
    let j = flat_index(c.pos, n);
    lemma_node_pos(map, nodes, c.pos);
    let nodes2 = relaxed_nodes(nodes, open, closed, j, c);
    let open2 = relaxed_open(open, closed, j);
    assert(c.g == nodes[b].g + STEP_COST);
    assert(c.h == heuristic_spec(c.pos, target));
    assert(c.f == c.g + c.h);
    if !closed[j] {
        assert(j != b);
        assert(j != s);
        lemma_node_pos(map, nodes, nodes[b].pos);
        assert(nodes_wf(map, nodes2));
        assert forall|i: int|
            0 <= i < n * n && (open2[i] || closed[i]) && i != s implies #[trigger] parent_ok(map, target, nodes2, closed, i) by {
            if i == j && nodes2[j] == c {
                assert(flat_index(nodes[b].pos, n) == b);
                assert(nodes2[b] == nodes[b]);
            } else {
                assert(open[i] || closed[i]);
                assert(parent_ok(map, target, nodes, closed, i));
                let pp = nodes[i].parent_pos;
                assert(flat_index(pp, n) != j);
            }
        }
        assert forall|i: int|
            0 <= i < n * n && closed[i] && i != b implies #[trigger] frontier_ok(map, target, nodes2, open2, closed, i) by {
            assert(frontier_ok(map, target, nodes, open, closed, i));
            assert(i != j);
        }
        assert forall|w: Seq<UVector2>|
            #[trigger] map.is_walk(target, w) && w[0] == start && closed[flat_index(w.last(), n)]
            implies nodes2[flat_index(w.last(), n)].g <= STEP_COST * (w.len() - 1) by {
            assert(flat_index(w.last(), n) != j);
        }
        assert(settled(map, start, target, nodes2, closed));
        assert forall|i: int| 0 <= i < n * n implies !(#[trigger] open2[i] && closed[i]) by {
            assert(!(open[i] && closed[i]));
        }
        assert forall|i: int|
            0 <= i < n * n && (#[trigger] open2[i] || closed[i]) implies {
                &&& nodes2[i].g <= STEP_COST * n_closed
                &&& nodes2[i].h == heuristic_spec(nodes2[i].pos, target)
                &&& nodes2[i].f == nodes2[i].g + nodes2[i].h
            } by {
            if i == j && nodes2[j] == c {
            } else {
                assert(nodes2[i] == nodes[i]);
                assert(open[i] || closed[i]);
            }
        }
        assert(closed[s] || forall|i: int| 0 <= i < n * n && #[trigger] open2[i] ==> i == s);
        assert forall|x: int| 0 <= x < nodes.len() && #[trigger] open[x] implies open2[x] && nodes2[x].g <= nodes[x].g by {
            if x == j {
                assert(nodes2[j].g <= nodes[j].g);
            }
        }
        assert(search_inv(map, start, target, nodes2, open2, closed, n_closed, b));
    }
}

/// The squares followed back from `cur` form a walk ending at `target`:
/// `rev` holds them from `target` backwards, `cur` comes before `rev.last()`.
spec fn back_chain(map: GameMap, target: UVector2, cur: UVector2, rev: Seq<UVector2>) -> bool {
    &&& rev.len() == 0 ==> cur == target
    &&& rev.len() > 0 ==> rev[0] == target && adjacent(cur, rev.last())
    &&& forall|k: int| 0 <= k < rev.len() ==> in_bounds(#[trigger] rev[k], map.size as int) && map.can_enter(rev[k], target)
    &&& forall|k: int| 0 <= k && k + 1 < rev.len() ==> adjacent(#[trigger] rev[k + 1], rev[k])
}

/// The board's cells laid out row after row.
pub open spec fn flat_cells(map: GameMap) -> Seq<Cell> {
    let n = map.size as int;
    Seq::new((n * n) as nat, |i: int| cell_at(map.grid@, UVector2 { x: (i / n) as usize, y: (i % n) as usize }))
}

/// Cells, open marks and finished marks of a search, by flat index.
pub type SearchState = (Seq<Cell>, Seq<bool>, Seq<bool>);

/// Before the first expansion only `start` is open, at cost zero.
pub open spec fn initial_state(map: GameMap, start: UVector2, target: UVector2) -> SearchState {
    let n = map.size as int;
    let s = flat_index(start, n);
    let c = flat_cells(map)[s];
    let h = heuristic_spec(start, target) as u64;
    let first = Cell { tile: c.tile, pos: c.pos, parent_pos: start, f: h, g: 0, h: h };
    (flat_cells(map).update(s, first), Seq::new((n * n) as nat, |i: int| i == s), Seq::new((n * n) as nat, |i: int| false))
}

/// `b` is the open cell expanded next.
pub open spec fn is_pick(nodes: Seq<Cell>, open: Seq<bool>, b: int) -> bool {
    &&& 0 <= b < open.len()
    &&& open[b]
    &&& forall|i: int| 0 <= i < open.len() && open[i] ==> picked_before(nodes[b], b, nodes[i], i)
}

pub open spec fn pick(nodes: Seq<Cell>, open: Seq<bool>) -> Option<int> {
    if exists|b: int| is_pick(nodes, open, b) {
        Some(choose|b: int| is_pick(nodes, open, b))
    } else {
        None
    }
}

proof fn lemma_pick_unique(nodes: Seq<Cell>, open: Seq<bool>, b: int)
    requires
        is_pick(nodes, open, b),
    ensures
        pick(nodes, open) == Some(b),
{
    let c = choose|c: int| is_pick(nodes, open, c);
    assert(picked_before(nodes[b], b, nodes[c], c));
    assert(picked_before(nodes[c], c, nodes[b], b));
}

/// The cells and open marks after offering each of `nbrs` in turn.
#[verifier::opaque]
pub open spec fn relax_all(
    nodes: Seq<Cell>,
    open: Seq<bool>,
    closed: Seq<bool>,
    nbrs: Seq<Cell>,
    n: int,
) -> (Seq<Cell>, Seq<bool>)
    decreases nbrs.len(),
{
    if nbrs.len() == 0 {
        (nodes, open)
    } else {
        let prev = relax_all(nodes, open, closed, nbrs.drop_last(), n);
        let c = nbrs.last();
        let j = flat_index(c.pos, n);
        (relaxed_nodes(prev.0, prev.1, closed, j, c), relaxed_open(prev.1, closed, j))
    }
}

/// The search is over: the target is finished or nothing is open.
pub open spec fn terminated(map: GameMap, target: UVector2, st: SearchState) -> bool {
    st.2[flat_index(target, map.size as int)] || pick(st.0, st.1) is None
}

/// One round of the search: finish the picked cell and offer its neighbours.
#[verifier::opaque]
pub open spec fn advance(map: GameMap, target: UVector2, st: SearchState) -> SearchState {
    if terminated(map, target, st) {
        st
    } else {
        let n = map.size as int;
        let b = pick(st.0, st.1)->0;
        let open1 = st.1.update(b, false);
        let closed1 = st.2.update(b, true);
        let nbrs = neighbor_seq(map.grid@, n, st.0[b], target);
        let relaxed = relax_all(st.0, open1, closed1, nbrs, n);
        (relaxed.0, relaxed.1, closed1)
    }
}

#[verifier::opaque]
pub open spec fn run(map: GameMap, target: UVector2, st: SearchState, k: nat) -> SearchState
    decreases k,
{
    if k == 0 {
        st
    } else {
        advance(map, target, run(map, target, st, (k - 1) as nat))
    }
}

proof fn lemma_run_settled(map: GameMap, target: UVector2, st: SearchState, k: nat, m: nat)
    requires
        terminated(map, target, run(map, target, st, k)),
    ensures
        run(map, target, st, k + m) == run(map, target, st, k),
    decreases m,
{
    if m > 0 {
        lemma_run_settled(map, target, st, k, (m - 1) as nat);
        lemma_run_next(map, target, st, (k + m - 1) as nat);
        reveal(advance);
    }
}

proof fn lemma_run_next(map: GameMap, target: UVector2, st: SearchState, k: nat)
    ensures
        run(map, target, st, 0) == st,
        run(map, target, st, k + 1) == advance(map, target, run(map, target, st, k)),
{
    reveal(run);
}

proof fn lemma_advance(map: GameMap, target: UVector2, st: SearchState, b: int)
    requires
        !st.2[flat_index(target, map.size as int)],
        is_pick(st.0, st.1, b),
    ensures
        ({
            let n = map.size as int;
            let open1 = st.1.update(b, false);
            let closed1 = st.2.update(b, true);
            let relaxed = relax_all(st.0, open1, closed1, neighbor_seq(map.grid@, n, st.0[b], target), n);
            advance(map, target, st) == (relaxed.0, relaxed.1, closed1)
        }),
{
    reveal(advance);
    lemma_pick_unique(st.0, st.1, b);
}

proof fn lemma_relax_all_next(nodes: Seq<Cell>, open: Seq<bool>, closed: Seq<bool>, nbrs: Seq<Cell>, n: int, k: int)
    requires
        0 <= k < nbrs.len(),
    ensures
        relax_all(nodes, open, closed, nbrs.take(0), n) == (nodes, open),
        ({
            let prev = relax_all(nodes, open, closed, nbrs.take(k), n);
            let j = flat_index(nbrs[k].pos, n);
            relax_all(nodes, open, closed, nbrs.take(k + 1), n) == (
                relaxed_nodes(prev.0, prev.1, closed, j, nbrs[k]),
                relaxed_open(prev.1, closed, j),
            )
        }),
{
    reveal(relax_all);
    assert(nbrs.take(k + 1).drop_last() =~= nbrs.take(k));
    assert(nbrs.take(0).len() == 0);
}

proof fn lemma_outcome(map: GameMap, start: UVector2, target: UVector2, st: SearchState)
    requires
        st == run(map, target, initial_state(map, start, target), (map.size * map.size) as nat),
    ensures
        search_outcome(map, start, target) == if st.2[flat_index(target, map.size as int)] {
            Some(route_back(st.0, map.size as int, start, target, st.0[flat_index(target, map.size as int)].g as nat))
        } else {
            None
        },
{
    reveal(search_outcome);
}

/// The squares from `start` to `cur` found by following parents back from
/// `cur`, spending one step of cost per square.
pub open spec fn route_back(nodes: Seq<Cell>, n: int, start: UVector2, cur: UVector2, cost: nat) -> Seq<UVector2>
    decreases cost,
{
    if cur == start || cost < STEP_COST {
        Seq::empty()
    } else {
        route_back(nodes, n, start, nodes[flat_index(cur, n)].parent_pos, (cost - STEP_COST) as nat).push(cur)
    }
}

/// What the search returns: run it until it stops (it finishes a cell per
/// round, so `n * n` rounds suffice), then follow parents back from the target.
#[verifier::opaque]
pub open spec fn search_outcome(map: GameMap, start: UVector2, target: UVector2) -> Option<Seq<UVector2>> {
    let n = map.size as int;
    let st = run(map, target, initial_state(map, start, target), (n * n) as nat);
    let t = flat_index(target, n);
    if st.2[t] {
        Some(route_back(st.0, n, start, target, st.0[t].g as nat))
    } else {
        None
    }
}

/// Runs A* on `map` from `bot_pos` to `target_pos`. Returns the squares to
/// enter, in order, ending at the target, along a shortest route; `None`
/// when no route exists. Of the open cells, the one with the lowest `f` is
/// expanded first, then the one with the lowest `h`, then the one that comes
/// first in reading order, so the answer is fixed by the inputs
/// (`search_outcome`).
#[verifier::rlimit(60)]
pub fn gen_path(bot_pos: &UVector2, target_pos: &UVector2, map: &GameMap) -> (r: Option<Vec<UVector2>>)
    requires
        map.wf(),
        in_bounds(*bot_pos, map.size as int),
        in_bounds(*target_pos, map.size as int),
    ensures
        match r {
            Some(steps) => map.is_shortest_route(*bot_pos, *target_pos, steps@),
            None => !map.reachable(*bot_pos, *target_pos),
        },
        match r {
            Some(steps) => search_outcome(*map, *bot_pos, *target_pos) == Some(steps@),
            None => search_outcome(*map, *bot_pos, *target_pos) is None,
        },
{
    let n = map.size;
    let ghost ni = n as int;
    assert(n * n <= MAX_SIZE * MAX_SIZE) by (nonlinear_arith)
        requires
            n <= MAX_SIZE,
    ;
    let total = n * n;
    let mut nodes = flatten_grid(map);
    proof {
        lemma_flat_index_bound(*bot_pos, ni);
        lemma_flat_index_bound(*target_pos, ni);
        lemma_node_pos(*map, nodes@, *bot_pos);
    }
    let s = bot_pos.x * n + bot_pos.y;
    let t = target_pos.x * n + target_pos.y;
    let mut first = nodes[s];
    first.g = 0;
    first.h = heuristic(bot_pos, target_pos);
    first.f = first.h;
    first.parent_pos = *bot_pos;
    nodes.set(s, first);
    let mut open: Vec<bool> = Vec::new();
    let mut closed: Vec<bool> = Vec::new();
    let mut i: usize = 0;
    while i < total
        invariant
            i <= total,
            s < total,
            open@.len() == i,
            closed@.len() == i,
            forall|k: int| 0 <= k < i ==> open@[k] == (k == s),
            forall|k: int| 0 <= k < i ==> !closed@[k],
            count_true(closed@) == 0,
        decreases total - i,
    {
        open.push(i == s);
        assert(closed@.push(false).drop_last() =~= closed@);
        closed.push(false);
        i = i + 1;
    }
    let mut n_closed: usize = 0;
    let ghost init = initial_state(*map, *bot_pos, *target_pos);
    proof {
        assert(open@ =~= init.1);
        assert(closed@ =~= init.2);
        assert(nodes@ =~= init.0);
        lemma_run_next(*map, *target_pos, init, 0);
        assert forall|w: Seq<UVector2>|
            #[trigger] map.is_walk(*target_pos, w) && w[0] == *bot_pos && closed@[flat_index(w.last(), ni)]
            implies nodes@[flat_index(w.last(), ni)].g <= STEP_COST * (w.len() - 1) by {
            assert(in_bounds(w[w.len() - 1], ni));
            lemma_flat_index_bound(w.last(), ni);
        }
        assert(settled(*map, *bot_pos, *target_pos, nodes@, closed@));
    }
    loop
        invariant
            map.wf(),
            in_bounds(*bot_pos, ni),
            in_bounds(*target_pos, ni),
            ni == n,
            n == map.size,
            total == n * n,
            total <= MAX_SIZE * MAX_SIZE,
            s == flat_index(*bot_pos, ni),
            t == flat_index(*target_pos, ni),
            s < total,
            t < total,
            search_inv(*map, *bot_pos, *target_pos, nodes@, open@, closed@, n_closed as int, -1),
            init == initial_state(*map, *bot_pos, *target_pos),
            (nodes@, open@, closed@) == run(*map, *target_pos, init, n_closed as nat),
        ensures
            closed@[t as int],
            (nodes@, open@, closed@) == run(*map, *target_pos, init, n_closed as nat),
            n_closed <= total,
        decreases total - n_closed,
    {
        if closed[t] {
            proof {
                lemma_count_true_le(closed@);
            }
            break;
        }
        let best = select_best(&nodes, &open);
        if best.is_none() {
            proof {
                lemma_no_route(*map, *bot_pos, *target_pos, nodes@, open@, closed@, n_closed as int);
                assert(!exists|b: int| is_pick(nodes@, open@, b));
                lemma_count_true_le(closed@);
                lemma_run_settled(*map, *target_pos, init, n_closed as nat, (total - n_closed) as nat);
                lemma_outcome(*map, *bot_pos, *target_pos, (nodes@, open@, closed@));
            }
            return None;
        }
        let b = best.unwrap();
        let ghost st_before: SearchState = (nodes@, open@, closed@);
        proof {
            assert(is_pick(nodes@, open@, b as int));
            lemma_pick_unique(nodes@, open@, b as int);
            lemma_selection_settles(*map, *bot_pos, *target_pos, nodes@, open@, closed@, n_closed as int, b as int);
            lemma_close(*map, *bot_pos, *target_pos, nodes@, open@, closed@, n_closed as int, b as int);
        }
        open.set(b, false);
        closed.set(b, true);
        n_closed = n_closed + 1;
        let cur = nodes[b];
        assert(cur.g <= MAX_G) by (nonlinear_arith)
            requires
                cur.g + STEP_COST <= STEP_COST * n_closed,
                n_closed <= total,
                total <= MAX_SIZE * MAX_SIZE,
        ;
        let ghost nodes0 = nodes@;
        let ghost open1 = open@;
        let neighbors = calc_neighbors(&cur, target_pos, &map.grid, n);
        let mut k: usize = 0;
        proof {
            if neighbors@.len() > 0 {
                lemma_relax_all_next(nodes0, open1, closed@, neighbors@, ni, 0);
            } else {
                reveal(relax_all);
            }
        }
        while k < neighbors.len()
            invariant
                map.wf(),
                in_bounds(*bot_pos, ni),
                in_bounds(*target_pos, ni),
                ni == n,
                n == map.size,
                total == n * n,
                total <= MAX_SIZE * MAX_SIZE,
                s == flat_index(*bot_pos, ni),
                t == flat_index(*target_pos, ni),
                s < total,
                t < total,
                b < total,
                closed@[b as int],
                closed@[s as int],
                cur == nodes@[b as int],
                cur.g <= MAX_G,
                cur.g + STEP_COST <= STEP_COST * n_closed,
                k <= neighbors@.len(),
                neighbors@ == neighbor_seq(map.grid@, ni, cur, *target_pos),
                (nodes@, open@) == relax_all(nodes0, open1, closed@, neighbors@.take(k as int), ni),
                forall|m: int|
                    0 <= m < neighbors@.len() ==> is_neighbor_of(map.grid@, ni, cur, *target_pos, #[trigger] neighbors@[m]),
                search_inv(*map, *bot_pos, *target_pos, nodes@, open@, closed@, n_closed as int, b as int),
                forall|m: int|
                    0 <= m < k ==> {
                        let j = flat_index((#[trigger] neighbors@[m]).pos, ni);
                        closed@[j] || (open@[j] && nodes@[j].g <= cur.g + STEP_COST)
                    },
            decreases neighbors@.len() - k,
        {
            let c = neighbors[k];
            proof {
                lemma_node_pos(*map, nodes@, c.pos);
                lemma_relax(*map, *bot_pos, *target_pos, nodes@, open@, closed@, n_closed as int, b as int, c);
            }
            let ghost before_open = open@;
            let ghost before_nodes = nodes@;
            let j = c.pos.x * n + c.pos.y;
            if !closed[j] {
                if open[j] {
                    if nodes[j].g > c.g {
                        nodes.set(j, c);
                    }
                } else {
                    nodes.set(j, c);
                    open.set(j, true);
                }
            }
            assert(nodes@ == relaxed_nodes(before_nodes, before_open, closed@, j as int, c));
            assert(open@ == relaxed_open(before_open, closed@, j as int));
            proof {
                lemma_relax_all_next(nodes0, open1, closed@, neighbors@, ni, k as int);
            }
            assert forall|m: int|
                0 <= m < k + 1 implies {
                    let jm = flat_index((#[trigger] neighbors@[m]).pos, ni);
                    closed@[jm] || (open@[jm] && nodes@[jm].g <= cur.g + STEP_COST)
                } by {
                if m < k {
                    let jm = flat_index(neighbors@[m].pos, ni);
                    lemma_node_pos(*map, before_nodes, neighbors@[m].pos);
                    if !closed@[jm] {
                        assert(before_open[jm]);
                    }
                }
            }
            k = k + 1;
        }
        proof {
            let ghost nb = neighbors@;
            assert forall|p: UVector2|
                in_bounds(p, ni) && #[trigger] adjacent(nodes@[b as int].pos, p) && map.can_enter(p, *target_pos)
                implies closed@[flat_index(p, ni)] || (open@[flat_index(p, ni)] && nodes@[flat_index(p, ni)].g
                <= nodes@[b as int].g + STEP_COST) by {
                assert(adjacent(cur.pos, p));
                let m = choose|m: int| 0 <= m < nb.len() && nb[m].pos == p;
                assert(is_neighbor_of(map.grid@, ni, cur, *target_pos, nb[m]));
            }
            assert(frontier_ok(*map, *target_pos, nodes@, open@, closed@, b as int));
            assert(neighbors@.take(neighbors@.len() as int) =~= neighbors@);
            lemma_advance(*map, *target_pos, st_before, b as int);
            lemma_run_next(*map, *target_pos, init, (n_closed - 1) as nat);
        }
    }
    proof {
        lemma_run_settled(*map, *target_pos, init, n_closed as nat, (total - n_closed) as nat);
    }
    let mut rev: Vec<UVector2> = Vec::new();
    let mut cur = *target_pos;
    proof {
        lemma_node_pos(*map, nodes@, *target_pos);
    }
    while cur != *bot_pos
        invariant
            map.wf(),
            in_bounds(*bot_pos, ni),
            in_bounds(*target_pos, ni),
            ni == n,
            n == map.size,
            total == n * n,
            total <= MAX_SIZE * MAX_SIZE,
            s == flat_index(*bot_pos, ni),
            t == flat_index(*target_pos, ni),
            search_inv(*map, *bot_pos, *target_pos, nodes@, open@, closed@, n_closed as int, -1),
            closed@[t as int],
            in_bounds(cur, ni),
            closed@[flat_index(cur, ni)],
            back_chain(*map, *target_pos, cur, rev@),
            nodes@[t as int].g == nodes@[flat_index(cur, ni)].g + STEP_COST * rev@.len(),
            ({
                let whole = route_back(nodes@, ni, *bot_pos, *target_pos, nodes@[t as int].g as nat);
                let part = route_back(nodes@, ni, *bot_pos, cur, nodes@[flat_index(cur, ni)].g as nat);
                &&& whole.len() == part.len() + rev@.len()
                &&& forall|k: int| 0 <= k < part.len() ==> whole[k] == part[k]
                &&& forall|m: int| 0 <= m < rev@.len() ==> whole[whole.len() - 1 - m] == rev@[m]
            }),
        decreases nodes@[flat_index(cur, ni)].g,
    {
        proof {
            lemma_node_pos(*map, nodes@, cur);
            lemma_flat_index_bound(cur, ni);
            if flat_index(cur, ni) == s {
                lemma_flat_index_injective(cur, *bot_pos, ni);
            }
            assert(parent_ok(*map, *target_pos, nodes@, closed@, flat_index(cur, ni)));
        }
        rev.push(cur);
        let ci = cur.x * n + cur.y;
        cur = nodes[ci].parent_pos;
    }
    let ghost rev0 = rev@;
    let ghost whole = route_back(nodes@, ni, *bot_pos, *target_pos, nodes@[t as int].g as nat);
    proof {
        lemma_outcome(*map, *bot_pos, *target_pos, (nodes@, open@, closed@));
        assert(whole.len() == rev0.len());
    }
    let mut path: Vec<UVector2> = Vec::new();
    while rev.len() > 0
        invariant
            rev@ == rev0.subrange(0, rev@.len() as int),
            rev@.len() <= rev0.len(),
            path@.len() + rev@.len() == rev0.len(),
            forall|m: int| 0 <= m < path@.len() ==> #[trigger] path@[m] == rev0[rev0.len() - 1 - m],
            whole.len() == rev0.len(),
            forall|m: int| 0 <= m < rev0.len() ==> whole[whole.len() - 1 - m] == rev0[m],
        decreases rev@.len(),
    {
        let p = rev.pop().unwrap();
        path.push(p);
    }
    proof {
        let w = seq![*bot_pos] + path@;
        let len = rev0.len() as int;
        assert forall|i: int| 0 <= i < w.len() implies in_bounds(#[trigger] w[i], ni) by {
            if i > 0 {
                assert(w[i] == rev0[len - i]);
            }
        }
        assert forall|i: int| 1 <= i < w.len() implies adjacent(w[i - 1], #[trigger] w[i]) && map.can_enter(w[i], *target_pos) by {
            assert(w[i] == rev0[len - i]);
            if i > 1 {
                assert(w[i - 1] == rev0[len - i + 1]);
                assert(adjacent(rev0[(len - i) + 1], rev0[len - i]));
            }
        }
        assert(map.is_walk(*target_pos, w));
        if len > 0 {
            assert(w.last() == rev0[0]);
        }
        assert(map.is_route(*bot_pos, *target_pos, path@));
        assert forall|m: int| 0 <= m < path@.len() implies path@[m] == whole[m] by {
            assert(path@[m] == rev0[len - 1 - m]);
            assert(whole[whole.len() - 1 - (len - 1 - m)] == rev0[len - 1 - m]);
        }
        assert(path@ =~= whole);
        assert forall|other: Seq<UVector2>| #[trigger] map.is_route(*bot_pos, *target_pos, other) implies path@.len() <= other.len() by {
            let wo = seq![*bot_pos] + other;
            assert(wo[0] == *bot_pos);
            assert(map.is_walk(*target_pos, wo));
        }
    }
    Some(path)
}

/// Why a search was refused.
#[derive(Debug, Clone, Copy, PartialEq, Eq, Structural)]
pub enum PathError {
    /// The start square is off the board.
    StartOutOfBounds,
    /// The target square is off the board.
    TargetOutOfBounds,
}

/// `gen_path` for positions that may lie off the board: those are refused
/// with an error naming the offending end, start first.
pub fn find_path(start: &UVector2, target: &UVector2, map: &GameMap) -> (r: Result<Option<Vec<UVector2>>, PathError>)
    requires
        map.wf(),
    ensures
        !in_bounds(*start, map.size as int) ==> r == Err::<Option<Vec<UVector2>>, PathError>(
            PathError::StartOutOfBounds,
        ),
        in_bounds(*start, map.size as int) && !in_bounds(*target, map.size as int) ==> r == Err::<
            Option<Vec<UVector2>>,
            PathError,
        >(PathError::TargetOutOfBounds),
        in_bounds(*start, map.size as int) && in_bounds(*target, map.size as int) ==> match r {
            Ok(Some(steps)) => map.is_shortest_route(*start, *target, steps@),
            Ok(None) => !map.reachable(*start, *target),
            Err(_) => false,
        },
{
    if start.x >= map.size || start.y >= map.size {
        return Err(PathError::StartOutOfBounds);
    }
    if target.x >= map.size || target.y >= map.size {
        return Err(PathError::TargetOutOfBounds);
    }
    Ok(gen_path(start, target, map))
}

} // verus!
