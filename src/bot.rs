//! The turn policy: pick a destination, route to it, and take the first step.
use vstd::prelude::*;
use crate::geometry::{Dir, UVector2, direction_spec, manhattan};
use crate::grid::{Board, GameMap, Tile, in_bounds};
use crate::pathing::gen_path;

verus! {

pub const MAX_HEALTH: u64 = 100;

/// At or below this life the bot heads for a tavern: a quarter of full health.
pub const LOW_HEALTH: u64 = MAX_HEALTH / 4;

/// "Close", in steps.
pub const CLOSE_RADIUS: u64 = 3;

#[derive(Debug, Clone, Copy, PartialEq, Eq, Structural)]
pub struct Hero {
    pub id: u64,
    pub pos: UVector2,
    pub life: u64,
}

/// The shared part of a turn snapshot: every hero and the board.
#[derive(Debug, Clone)]
pub struct Game {
    pub heroes: Vec<Hero>,
    pub board: Board,
}

/// One turn snapshot as the bot sees it: its own hero and the game.
#[derive(Debug, Clone)]
pub struct State {
    pub hero: Hero,
    pub game: Game,
}

/// The move that takes a unit from `pos1` to the adjacent `pos2`; `Stay`
/// when the two are not one cardinal step apart.
pub fn get_direction(pos1: &UVector2, pos2: &UVector2) -> (r: Dir)
    ensures
        r == direction_spec(*pos1, *pos2),
{
    if pos2.x == pos1.x && pos2.y < pos1.y && pos1.y - pos2.y == 1 {
        Dir::North
    } else if pos2.y == pos1.y && pos2.x < pos1.x && pos1.x - pos2.x == 1 {
        Dir::East
    } else if pos2.x == pos1.x && pos2.y > pos1.y && pos2.y - pos1.y == 1 {
        Dir::South
    } else if pos2.y == pos1.y && pos2.x > pos1.x && pos2.x - pos1.x == 1 {
        Dir::West
    } else {
        Dir::Stay
    }
}

impl UVector2 {
    /// Number of cardinal steps to `other` on an open board.
    pub fn distance_from(&self, other: &UVector2) -> (r: u128)
        ensures
            r == manhattan(*self, *other),
    {
        let dx: usize = if self.x >= other.x { self.x - other.x } else { other.x - self.x };
        let dy: usize = if self.y >= other.y { self.y - other.y } else { other.y - self.y };
        dx as u128 + dy as u128
    }
}

/// The kinds of square the policy looks for.
#[derive(Debug, Clone, Copy, PartialEq, Eq, Structural)]
pub enum Feature {
    Tavern,
    Mine,
    UnclaimedMine,
}

pub open spec fn has_feature(t: Tile, f: Feature) -> bool {
    match f {
        Feature::Tavern => t == Tile::Tavern,
        Feature::Mine => t is Mine,
        Feature::UnclaimedMine => t == Tile::Mine(None),
    }
}

fn tile_has(t: &Tile, f: Feature) -> (r: bool)
    ensures
        r == has_feature(*t, f),
{
    match (f, t) {
        (Feature::Tavern, Tile::Tavern) => true,
        (Feature::Mine, Tile::Mine(_)) => true,
        (Feature::UnclaimedMine, Tile::Mine(None)) => true,
        _ => false,
    }
}

/// `p` comes no later than `q` when the board is read row by row.
pub open spec fn scan_before(p: UVector2, q: UVector2) -> bool {
    p.x < q.x || (p.x == q.x && p.y <= q.y)
}

/// `p` is the square of kind `f` nearest to `from`, the first in reading
/// order among equally near ones.
pub open spec fn is_nearest_feature(board: Board, from: UVector2, f: Feature, p: UVector2) -> bool {
    &&& in_bounds(p, board.size as int)
    &&& has_feature(board.tile_spec(p), f)
    &&& forall|q: UVector2|
        in_bounds(q, board.size as int) && #[trigger] has_feature(board.tile_spec(q), f) ==> manhattan(from, p)
            < manhattan(from, q) || (manhattan(from, p) == manhattan(from, q) && scan_before(p, q))
}

pub open spec fn nearest_feature(board: Board, from: UVector2, f: Feature) -> Option<UVector2> {
    if exists|p: UVector2| is_nearest_feature(board, from, f, p) {
        Some(choose|p: UVector2| is_nearest_feature(board, from, f, p))
    } else {
        None
    }
}

proof fn lemma_nearest_feature_unique(board: Board, from: UVector2, f: Feature, p: UVector2)
    requires
        is_nearest_feature(board, from, f, p),
    ensures
        nearest_feature(board, from, f) == Some(p),
{
    let q = choose|q: UVector2| is_nearest_feature(board, from, f, q);
    assert(has_feature(board.tile_spec(q), f));
    assert(has_feature(board.tile_spec(p), f));
}

/// The square of kind `f` nearest to `from`, if the board has one.
fn find_nearest_feature(board: &Board, from: &UVector2, f: Feature) -> (r: Option<UVector2>)
    requires
        board.wf(),
    ensures
        r == nearest_feature(*board, *from, f),
{
    let n = board.size;
    let mut best: Option<UVector2> = None;
    let mut best_d: u128 = 0;
    let mut x: usize = 0;
    while x < n
        invariant
            board.wf(),
            n == board.size,
            x <= n,
            match best {
                None => forall|q: UVector2|
                    in_bounds(q, n as int) && q.x < x ==> !#[trigger] has_feature(board.tile_spec(q), f),
                Some(p) => {
                    &&& in_bounds(p, n as int)
                    &&& p.x < x
                    &&& has_feature(board.tile_spec(p), f)
                    &&& best_d == manhattan(*from, p)
                    &&& forall|q: UVector2|
                        in_bounds(q, n as int) && q.x < x && #[trigger] has_feature(board.tile_spec(q), f)
                            ==> manhattan(*from, p) < manhattan(*from, q) || (manhattan(*from, p) == manhattan(
                            *from,
                            q,
                        ) && scan_before(p, q))
                },
            },
        decreases n - x,
    {
        let mut y: usize = 0;
        while y < n
            invariant
                board.wf(),
                n == board.size,
                x < n,
                y <= n,
                match best {
                    None => forall|q: UVector2|
                        in_bounds(q, n as int) && (q.x < x || (q.x == x && q.y < y)) ==> !#[trigger] has_feature(
                            board.tile_spec(q),
                            f,
                        ),
                    Some(p) => {
                        &&& in_bounds(p, n as int)
                        &&& (p.x < x || (p.x == x && p.y < y))
                        &&& has_feature(board.tile_spec(p), f)
                        &&& best_d == manhattan(*from, p)
                        &&& forall|q: UVector2|
                            in_bounds(q, n as int) && (q.x < x || (q.x == x && q.y < y)) && #[trigger] has_feature(
                                board.tile_spec(q),
                                f,
                            ) ==> manhattan(*from, p) < manhattan(*from, q) || (manhattan(*from, p) == manhattan(
                                *from,
                                q,
                            ) && scan_before(p, q))
                    },
                },
            decreases n - y,
        {
            let here = UVector2 { x: x, y: y };
            if tile_has(&board.tiles[x][y], f) {
                let d = from.distance_from(&here);
                if best.is_none() || d < best_d {
                    best = Some(here);
                    best_d = d;
                }
            }
            y = y + 1;
        }
        x = x + 1;
    }
    match best {
        Some(p) => {
            proof {
                lemma_nearest_feature_unique(*board, *from, f, p);
            }
        },
        None => {
            assert(!exists|p: UVector2| is_nearest_feature(*board, *from, f, p));
        },
    }
    best
}

/// Index `k` holds the other hero nearest to the bot, the first listed among
/// equally near ones.
pub open spec fn is_nearest_enemy(state: State, k: int) -> bool {
    let heroes = state.game.heroes@;
    let from = state.hero.pos;
    &&& 0 <= k < heroes.len()
    &&& heroes[k].id != state.hero.id
    &&& forall|i: int|
        0 <= i < heroes.len() && (#[trigger] heroes[i]).id != state.hero.id ==> manhattan(from, heroes[k].pos)
            < manhattan(from, heroes[i].pos) || (manhattan(from, heroes[k].pos) == manhattan(from, heroes[i].pos)
            && k <= i)
}

pub open spec fn nearest_enemy(state: State) -> Option<Hero> {
    if exists|k: int| is_nearest_enemy(state, k) {
        Some(state.game.heroes@[choose|k: int| is_nearest_enemy(state, k)])
    } else {
        None
    }
}

/// The other hero nearest to the bot, if there is one.
fn find_nearest_enemy(state: &State) -> (r: Option<Hero>)
    ensures
        r == nearest_enemy(*state),
{
    let heroes = &state.game.heroes;
    let from = &state.hero.pos;
    let mut best: Option<usize> = None;
    let mut best_d: u128 = 0;
    let mut i: usize = 0;
    while i < heroes.len()
        invariant
            heroes == &state.game.heroes,
            from == &state.hero.pos,
            i <= heroes@.len(),
            match best {
                None => forall|j: int| 0 <= j < i ==> (#[trigger] heroes@[j]).id == state.hero.id,
                Some(k) => {
                    &&& k < i
                    &&& heroes@[k as int].id != state.hero.id
                    &&& best_d == manhattan(*from, heroes@[k as int].pos)
                    &&& forall|j: int|
                        0 <= j < i && (#[trigger] heroes@[j]).id != state.hero.id ==> manhattan(
                            *from,
                            heroes@[k as int].pos,
                        ) < manhattan(*from, heroes@[j].pos) || (manhattan(*from, heroes@[k as int].pos)
                            == manhattan(*from, heroes@[j].pos) && k <= j)
                },
            },
        decreases heroes@.len() - i,
    {
        if heroes[i].id != state.hero.id {
            let d = from.distance_from(&heroes[i].pos);
            if best.is_none() || d < best_d {
                best = Some(i);
                best_d = d;
            }
        }
        i = i + 1;
    }
    match best {
        Some(k) => {
            proof {
                let c = choose|c: int| is_nearest_enemy(*state, c);
                assert(is_nearest_enemy(*state, k as int));
                assert(heroes@[c].id != state.hero.id);
                assert(heroes@[k as int].id != state.hero.id);
            }
            Some(heroes[k])
        },
        None => {
            assert(!exists|k: int| is_nearest_enemy(*state, k)) by {
                if exists|k: int| is_nearest_enemy(*state, k) {
                    let k = choose|k: int| is_nearest_enemy(*state, k);
                    assert(heroes@[k].id != state.hero.id);
                }
            }
            None
        },
    }
}

/// Some mine on the board belongs to the hero `id`.
pub open spec fn owns_mine(board: Board, id: u64) -> bool {
    exists|p: UVector2| in_bounds(p, board.size as int) && #[trigger] board.tile_spec(p) == Tile::Mine(Some(id))
}

fn has_mine_of(board: &Board, id: u64) -> (r: bool)
    requires
        board.wf(),
    ensures
        r == owns_mine(*board, id),
{
    let n = board.size;
    let mut x: usize = 0;
    while x < n
        invariant
            board.wf(),
            n == board.size,
            x <= n,
            forall|q: UVector2|
                in_bounds(q, n as int) && q.x < x ==> #[trigger] board.tile_spec(q) != Tile::Mine(Some(id)),
        decreases n - x,
    {
        let mut y: usize = 0;
        while y < n
            invariant
                board.wf(),
                n == board.size,
                x < n,
                y <= n,
                forall|q: UVector2|
                    in_bounds(q, n as int) && (q.x < x || (q.x == x && q.y < y)) ==> #[trigger] board.tile_spec(q)
                        != Tile::Mine(Some(id)),
            decreases n - y,
        {
            if board.tiles[x][y] == Tile::Mine(Some(id)) {
                assert(board.tile_spec(UVector2 { x: x, y: y }) == Tile::Mine(Some(id)));
                return true;
            }
            y = y + 1;
        }
        x = x + 1;
    }
    false
}

/// The destination rule, given the bot, the nearest other hero, the nearest
/// tavern, mine and unclaimed mine, and whether that hero owns a mine:
/// low on life, a tavern; a weaker close hero that owns a mine, that hero;
/// with a hero close, a close tavern; a close mine; a weaker hero within
/// twice the radius; the nearest unclaimed mine; else the nearest mine.
pub open spec fn decide(
    hero: Hero,
    enemy: Option<Hero>,
    tavern: Option<UVector2>,
    mine: Option<UVector2>,
    unclaimed: Option<UVector2>,
    enemy_owns_mine: bool,
) -> Option<UVector2> {
    let from = hero.pos;
    if hero.life <= LOW_HEALTH {
        tavern
    } else if enemy is Some && manhattan(from, enemy->0.pos) <= CLOSE_RADIUS && enemy->0.life < hero.life
        && enemy_owns_mine {
        Some(enemy->0.pos)
    } else if enemy is Some && manhattan(from, enemy->0.pos) <= CLOSE_RADIUS && tavern is Some && manhattan(
        from,
        tavern->0,
    ) <= CLOSE_RADIUS {
        tavern
    } else if mine is Some && manhattan(from, mine->0) <= CLOSE_RADIUS {
        mine
    } else if enemy is Some && enemy->0.life < hero.life && manhattan(from, enemy->0.pos) <= 2 * CLOSE_RADIUS {
        Some(enemy->0.pos)
    } else if unclaimed is Some {
        unclaimed
    } else {
        mine
    }
}

/// Where the bot should head this turn.
pub open spec fn destination(state: State) -> Option<UVector2> {
    let board = state.game.board;
    let from = state.hero.pos;
    let enemy = nearest_enemy(state);
    decide(
        state.hero,
        enemy,
        nearest_feature(board, from, Feature::Tavern),
        nearest_feature(board, from, Feature::Mine),
        nearest_feature(board, from, Feature::UnclaimedMine),
        enemy is Some && owns_mine(board, enemy->0.id),
    )
}

/// Picks the square the bot heads for this turn; `None` when the board
/// offers nothing to head for.
pub fn find_destination(state: &State) -> (r: Option<UVector2>)
    requires
        state.game.board.wf(),
    ensures
        r == destination(*state),
{
    let board = &state.game.board;
    let hero_pos = &state.hero.pos;
    let bot_life = state.hero.life;
    let tavern = find_nearest_feature(board, hero_pos, Feature::Tavern);
    let mine = find_nearest_feature(board, hero_pos, Feature::Mine);
    let unclaimed = find_nearest_feature(board, hero_pos, Feature::UnclaimedMine);
    let enemy = find_nearest_enemy(state);
    let enemy_owns_mine = match enemy {
        Some(e) => has_mine_of(board, e.id),
        None => false,
    };
    let radius = CLOSE_RADIUS as u128;
    if bot_life <= LOW_HEALTH {
        return tavern;
    }
    if let Some(e) = enemy {
        let d = hero_pos.distance_from(&e.pos);
        if d <= radius && e.life < bot_life && enemy_owns_mine {
            return Some(e.pos);
        }
        if d <= radius {
            if let Some(t) = tavern {
                if hero_pos.distance_from(&t) <= radius {
                    return tavern;
                }
            }
        }
    }
    if let Some(m) = mine {
        if hero_pos.distance_from(&m) <= radius {
            return mine;
        }
    }
    if let Some(e) = enemy {
        if e.life < bot_life && hero_pos.distance_from(&e.pos) <= 2 * radius {
            return Some(e.pos);
        }
    }
    if unclaimed.is_some() {
        unclaimed
    } else {
        mine
    }
}

/// The first move along `steps` from `pos`; `Stay` when there is none.
pub open spec fn first_move(pos: UVector2, steps: Seq<UVector2>) -> Dir {
    if steps.len() == 0 {
        Dir::Stay
    } else {
        direction_spec(pos, steps[0])
    }
}

/// The bot's move for one turn: towards its destination along a shortest
/// route. It stays when the board is malformed, it stands off the board,
/// there is no destination on the board, or no route leads there.
pub fn step(state: &State) -> (r: Dir)
    ensures
        ({
            let board = state.game.board;
            let pos = state.hero.pos;
            if !board.wf() || !in_bounds(pos, board.size as int) {
                r == Dir::Stay
            } else {
                match destination(*state) {
                    None => r == Dir::Stay,
                    Some(d) => if !in_bounds(d, board.size as int) {
                        r == Dir::Stay
                    } else {
                        exists|m: GameMap|
                            #[trigger] m.models(board) && if m.reachable(pos, d) {
                                exists|steps: Seq<UVector2>|
                                    #[trigger] m.is_shortest_route(pos, d, steps) && r == first_move(pos, steps)
                            } else {
                                r == Dir::Stay
                            }
                    },
                }
            }
        }),
{
    let board = &state.game.board;
    let cur_pos = state.hero.pos;
    if !board.is_valid() || cur_pos.x >= board.size || cur_pos.y >= board.size {
        return Dir::Stay;
    }
    match find_destination(state) {
        None => Dir::Stay,
        Some(dest) => {
            if dest.x >= board.size || dest.y >= board.size {
                return Dir::Stay;
            }
            let map = GameMap::from_board(board);
            match gen_path(&cur_pos, &dest, &map) {
                Some(path) => {
                    let dir = if path.len() == 0 {
                        Dir::Stay
                    } else {
                        get_direction(&cur_pos, &path[0])
                    };
                    assert(map.models(*board) && map.is_shortest_route(cur_pos, dest, path@) && dir == first_move(
                        cur_pos,
                        path@,
                    ));
                    dir
                },
                None => {
                    assert(map.models(*board));
                    Dir::Stay
                },
            }
        },
    }
}

} // verus!
