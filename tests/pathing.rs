use std::collections::VecDeque;

use vindinium_bot::bot::{find_destination, get_direction, step, Game, Hero, State};
use vindinium_bot::geometry::{heuristic, Dir, IVector2, UVector2};
use vindinium_bot::grid::{Board, Cell, GameMap, Tile};
use vindinium_bot::pathing::{
    calc_neighbor, calc_neighbors, cell_index_valid, find_path, gen_path, PathError, BLOCKED,
};

fn pos(x: usize, y: usize) -> UVector2 {
    UVector2 { x, y }
}

fn free_board(n: usize) -> Board {
    Board { size: n, tiles: vec![vec![Tile::Free; n]; n] }
}

fn board_with(n: usize, walls: &[(usize, usize)]) -> Board {
    let mut b = free_board(n);
    for &(x, y) in walls {
        b.tiles[x][y] = Tile::Wall;
    }
    b
}

fn adjacent(a: &UVector2, b: &UVector2) -> bool {
    let dx = if a.x > b.x { a.x - b.x } else { b.x - a.x };
    let dy = if a.y > b.y { a.y - b.y } else { b.y - a.y };
    dx + dy == 1
}

/// Breadth-first hop count from `start` to `target`, entering free squares and the target.
fn bfs_hops(board: &Board, start: UVector2, target: UVector2) -> Option<usize> {
    let n = board.size;
    let mut dist = vec![vec![usize::MAX; n]; n];
    let mut queue = VecDeque::new();
    dist[start.x][start.y] = 0;
    queue.push_back(start);
    while let Some(p) = queue.pop_front() {
        if p == target {
            return Some(dist[p.x][p.y]);
        }
        let mut next = Vec::new();
        if p.x > 0 {
            next.push(pos(p.x - 1, p.y));
        }
        if p.y > 0 {
            next.push(pos(p.x, p.y - 1));
        }
        if p.x + 1 < n {
            next.push(pos(p.x + 1, p.y));
        }
        if p.y + 1 < n {
            next.push(pos(p.x, p.y + 1));
        }
        for q in next {
            let enter = q == target || board.tiles[q.x][q.y] == Tile::Free;
            if enter && dist[q.x][q.y] == usize::MAX {
                dist[q.x][q.y] = dist[p.x][p.y] + 1;
                queue.push_back(q);
            }
        }
    }
    None
}

fn check_route(board: &Board, start: UVector2, target: UVector2, steps: &[UVector2]) {
    let mut prev = start;
    for s in steps {
        assert!(adjacent(&prev, s));
        assert!(*s == target || board.tiles[s.x][s.y] == Tile::Free);
        prev = *s;
    }
    assert_eq!(prev, target);
}

#[test]
fn straight_route_on_open_board() {
    let map = GameMap::from_board(&free_board(5));
    let r = gen_path(&pos(0, 0), &pos(4, 0), &map);
    assert_eq!(r, Some(vec![pos(1, 0), pos(2, 0), pos(3, 0), pos(4, 0)]));
}

#[test]
fn wall_column_separates_sides() {
    let map = GameMap::from_board(&board_with(3, &[(1, 0), (1, 1), (1, 2)]));
    assert_eq!(gen_path(&pos(0, 1), &pos(2, 1), &map), None);
}

#[test]
fn north_lowers_y() {
    assert_eq!(get_direction(&pos(2, 2), &pos(2, 1)), Dir::North);
}

#[test]
fn other_directions() {
    assert_eq!(get_direction(&pos(2, 2), &pos(1, 2)), Dir::East);
    assert_eq!(get_direction(&pos(2, 2), &pos(2, 3)), Dir::South);
    assert_eq!(get_direction(&pos(2, 2), &pos(3, 2)), Dir::West);
    assert_eq!(get_direction(&pos(2, 2), &pos(2, 2)), Dir::Stay);
    assert_eq!(get_direction(&pos(2, 2), &pos(3, 3)), Dir::Stay);
    assert_eq!(get_direction(&pos(2, 2), &pos(2, 4)), Dir::Stay);
}

#[test]
fn search_to_self_is_empty() {
    let map = GameMap::from_board(&free_board(4));
    assert_eq!(gen_path(&pos(2, 1), &pos(2, 1), &map), Some(vec![]));
    let walled = GameMap::from_board(&board_with(3, &[(0, 1), (1, 0), (1, 2), (2, 1)]));
    assert_eq!(gen_path(&pos(1, 1), &pos(1, 1), &walled), Some(vec![]));
}

#[test]
fn walled_target_is_unreachable() {
    let map = GameMap::from_board(&board_with(5, &[(1, 2), (3, 2), (2, 1), (2, 3)]));
    assert_eq!(gen_path(&pos(0, 0), &pos(2, 2), &map), None);
    let corner = GameMap::from_board(&board_with(4, &[(0, 1), (1, 0)]));
    assert_eq!(gen_path(&pos(3, 3), &pos(0, 0), &corner), None);
}

#[test]
fn routes_are_steps_and_shortest() {
    let boards = vec![
        board_with(6, &[(1, 1), (1, 2), (1, 3), (1, 4), (3, 1), (3, 2), (3, 3), (3, 4), (3, 5), (4, 0)]),
        board_with(5, &[(0, 2), (1, 2), (2, 2), (3, 2)]),
        board_with(4, &[(1, 0), (1, 1), (2, 3)]),
        free_board(4),
    ];
    for board in &boards {
        let map = GameMap::from_board(board);
        let n = board.size;
        for sx in 0..n {
            for sy in 0..n {
                for tx in 0..n {
                    for ty in 0..n {
                        let (s, t) = (pos(sx, sy), pos(tx, ty));
                        let r = gen_path(&s, &t, &map);
                        match (r, bfs_hops(board, s, t)) {
                            (Some(steps), Some(h)) => {
                                assert_eq!(steps.len(), h);
                                check_route(board, s, t, &steps);
                            }
                            (None, None) => {}
                            (r, h) => panic!("search {:?} against hop count {:?}", r, h),
                        }
                    }
                }
            }
        }
    }
}

#[test]
fn detour_around_wall() {
    let board = board_with(5, &[(2, 0), (2, 1), (2, 2), (2, 3)]);
    let map = GameMap::from_board(&board);
    let steps = gen_path(&pos(0, 0), &pos(4, 0), &map).unwrap();
    assert_eq!(steps.len(), 12);
    check_route(&board, pos(0, 0), pos(4, 0), &steps);
    assert!(steps.contains(&pos(2, 4)));
}

#[test]
fn target_tile_may_be_a_mine() {
    let mut board = free_board(3);
    board.tiles[2][2] = Tile::Mine(Some(4));
    board.tiles[1][1] = Tile::Tavern;
    let map = GameMap::from_board(&board);
    let steps = gen_path(&pos(0, 0), &pos(2, 2), &map).unwrap();
    assert_eq!(steps.len(), 4);
    assert!(!steps.contains(&pos(1, 1)));
    assert_eq!(steps.last(), Some(&pos(2, 2)));
    let tavern = gen_path(&pos(0, 1), &pos(1, 1), &map).unwrap();
    assert_eq!(tavern, vec![pos(1, 1)]);
}

#[test]
fn repeated_search_is_identical() {
    let map = GameMap::from_board(&board_with(6, &[(2, 2), (3, 3)]));
    let a = gen_path(&pos(0, 0), &pos(5, 5), &map);
    let b = gen_path(&pos(0, 0), &pos(5, 5), &map);
    assert!(a.is_some());
    assert_eq!(a, b);
    assert_eq!(a.unwrap().len(), 10);
}

#[test]
fn out_of_bounds_positions_are_refused() {
    let map = GameMap::from_board(&free_board(3));
    assert_eq!(find_path(&pos(3, 0), &pos(1, 1), &map), Err(PathError::StartOutOfBounds));
    assert_eq!(find_path(&pos(0, 7), &pos(9, 9), &map), Err(PathError::StartOutOfBounds));
    assert_eq!(find_path(&pos(0, 0), &pos(1, 3), &map), Err(PathError::TargetOutOfBounds));
    assert_eq!(find_path(&pos(0, 0), &pos(0, 2), &map), Ok(Some(vec![pos(0, 1), pos(0, 2)])));
}

#[test]
fn heuristic_is_ten_per_step() {
    assert_eq!(heuristic(&pos(0, 0), &pos(3, 4)), 70);
    assert_eq!(heuristic(&pos(5, 1), &pos(2, 3)), 50);
    assert_eq!(heuristic(&pos(2, 2), &pos(2, 2)), 0);
}

#[test]
fn neighbor_costs() {
    let parent = Cell { tile: Tile::Free, pos: pos(0, 0), parent_pos: pos(0, 0), f: 70, g: 20, h: 50 };
    let free = Cell { tile: Tile::Free, pos: pos(0, 1), parent_pos: pos(0, 1), f: 0, g: 0, h: 0 };
    let c = calc_neighbor(&parent, &free, &pos(3, 3));
    assert_eq!(c.g, 30);
    assert_eq!(c.h, 50);
    assert_eq!(c.f, 80);
    assert_eq!(c.parent_pos, pos(0, 0));
    assert_eq!(c.pos, pos(0, 1));
    let wall = Cell { tile: Tile::Wall, pos: pos(1, 0), parent_pos: pos(1, 0), f: 0, g: 0, h: 0 };
    let w = calc_neighbor(&parent, &wall, &pos(3, 3));
    assert_eq!(w.f, BLOCKED);
    assert_eq!(w.g, 30);
    let mine = Cell { tile: Tile::Mine(None), pos: pos(1, 0), parent_pos: pos(1, 0), f: 0, g: 0, h: 0 };
    let m = calc_neighbor(&parent, &mine, &pos(1, 0));
    assert_eq!(m.f, 30);
}

#[test]
fn index_validity() {
    assert!(cell_index_valid(0, 0, 3));
    assert!(cell_index_valid(2, 1, 3));
    assert!(!cell_index_valid(-1, 0, 3));
    assert!(!cell_index_valid(0, 3, 3));
    assert!(!cell_index_valid(0, 0, 0));
}

#[test]
fn neighbors_skip_walls_and_edges() {
    let map = GameMap::from_board(&board_with(3, &[(1, 0)]));
    let corner = map.grid[0][0];
    let ns = calc_neighbors(&corner, &pos(2, 2), &map.grid, 3);
    assert_eq!(ns.len(), 1);
    assert_eq!(ns[0].pos, pos(0, 1));
    assert_eq!(ns[0].g, 10);
    let centre = map.grid[1][1];
    let all = calc_neighbors(&centre, &pos(1, 0), &map.grid, 3);
    assert_eq!(all.len(), 4);
}

#[test]
fn fresh_grid_keeps_tiles() {
    let mut board = free_board(2);
    board.tiles[0][1] = Tile::Mine(Some(2));
    board.tiles[1][0] = Tile::Hero(3);
    let map = GameMap::from_board(&board);
    assert_eq!(map.size, 2);
    let c = map.grid[0][1];
    assert_eq!(c.tile, Tile::Mine(Some(2)));
    assert_eq!(c.pos, pos(0, 1));
    assert_eq!(c.parent_pos, pos(0, 1));
    assert_eq!((c.f, c.g, c.h), (0, 0, 0));
    assert_eq!(map.grid[1][0].tile, Tile::Hero(3));
}

#[test]
fn board_validity() {
    assert!(free_board(3).is_valid());
    let ragged = Board { size: 2, tiles: vec![vec![Tile::Free; 2], vec![Tile::Free; 1]] };
    assert!(!ragged.is_valid());
    let short = Board { size: 3, tiles: vec![vec![Tile::Free; 3]; 2] };
    assert!(!short.is_valid());
}

#[test]
fn signed_view_of_position() {
    let v = IVector2::from(&pos(3, 7));
    assert_eq!(v, IVector2 { x: 3, y: 7 });
}

#[test]
fn distance_between_positions() {
    assert_eq!(pos(1, 5).distance_from(&pos(4, 1)), 7);
    assert_eq!(pos(0, 0).distance_from(&pos(0, 0)), 0);
}

fn hero(id: u64, x: usize, y: usize, life: u64) -> Hero {
    Hero { id, pos: pos(x, y), life }
}

fn state(me: Hero, others: Vec<Hero>, board: Board) -> State {
    let mut heroes = vec![me];
    heroes.extend(others);
    State { hero: me, game: Game { heroes, board } }
}

fn policy_board() -> Board {
    let mut b = free_board(8);
    b.tiles[0][7] = Tile::Tavern;
    b.tiles[7][0] = Tile::Tavern;
    b.tiles[7][7] = Tile::Mine(None);
    b.tiles[4][4] = Tile::Mine(Some(2));
    b
}

#[test]
fn low_life_heads_for_nearest_tavern() {
    let s = state(hero(1, 6, 1, 20), vec![hero(2, 0, 0, 90)], policy_board());
    assert_eq!(find_destination(&s), Some(pos(7, 0)));
}

#[test]
fn weaker_close_mine_owner_is_intercepted() {
    let s = state(hero(1, 3, 3, 80), vec![hero(2, 3, 4, 40), hero(3, 7, 6, 10)], policy_board());
    assert_eq!(find_destination(&s), Some(pos(3, 4)));
}

#[test]
fn close_mine_is_claimed() {
    let s = state(hero(1, 5, 5, 80), vec![hero(2, 0, 0, 90)], policy_board());
    assert_eq!(find_destination(&s), Some(pos(4, 4)));
}

#[test]
fn far_from_everything_takes_unclaimed_mine() {
    let s = state(hero(1, 0, 0, 80), vec![hero(2, 0, 6, 90)], policy_board());
    assert_eq!(find_destination(&s), Some(pos(7, 7)));
}

#[test]
fn weaker_hero_within_twice_radius_is_chased() {
    let s = state(hero(1, 0, 0, 80), vec![hero(2, 2, 3, 30)], policy_board());
    assert_eq!(find_destination(&s), Some(pos(2, 3)));
}

#[test]
fn nothing_to_head_for() {
    let s = state(hero(1, 0, 0, 80), vec![], free_board(3));
    assert_eq!(find_destination(&s), None);
    assert_eq!(step(&s), Dir::Stay);
}

#[test]
fn step_moves_towards_destination() {
    let s = state(hero(1, 7, 3, 20), vec![hero(2, 0, 0, 90)], policy_board());
    assert_eq!(step(&s), Dir::North);
    let on_board_edge = state(hero(1, 9, 9, 20), vec![], policy_board());
    assert_eq!(step(&on_board_edge), Dir::Stay);
}

#[test]
fn unsigned_view_takes_magnitudes() {
    assert_eq!(UVector2::from(&IVector2 { x: -3, y: 4 }), pos(3, 4));
    assert_eq!(UVector2::from(&IVector2 { x: 0, y: -1 }), pos(0, 1));
}
