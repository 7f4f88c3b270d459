//! Properties of the search stated over its contract.
use vstd::prelude::*;
use crate::geometry::{UVector2, adjacent};
use crate::grid::{GameMap, Tile, in_bounds};
use crate::pathing::search_outcome;

verus! {

/// What `gen_path` may return for `start` and `target` on `map`: a shortest
/// route, or `None` exactly when there is no route.
pub open spec fn is_search_result(
    map: GameMap,
    start: UVector2,
    target: UVector2,
    r: Option<Seq<UVector2>>,
) -> bool {
    match r {
        Some(steps) => map.is_shortest_route(start, target, steps),
        None => !map.reachable(start, target),
    }
}

/// A search from a square to itself finds the empty route.
pub proof fn law_search_to_self(map: GameMap, p: UVector2, r: Option<Seq<UVector2>>)
    requires
        map.wf(),
        in_bounds(p, map.size as int),
        is_search_result(map, p, p, r),
    ensures
        r == Some(Seq::<UVector2>::empty()),
{
    let none = Seq::<UVector2>::empty();
    assert(seq![p] + none =~= seq![p]);
    assert(map.is_route(p, p, none));
    if let Some(steps) = r {
        assert(steps.len() <= none.len());
        assert(steps =~= none);
    }
}

/// Along a route each square entered is one cardinal step from the one
/// before it (the first from `start`), lies on the board, and can be entered.
pub proof fn law_route_steps(map: GameMap, start: UVector2, target: UVector2, steps: Seq<UVector2>)
    requires
        map.is_route(start, target, steps),
    ensures
        forall|i: int|
            0 <= i < steps.len() ==> {
                &&& adjacent(if i == 0 { start } else { steps[i - 1] }, #[trigger] steps[i])
                &&& in_bounds(steps[i], map.size as int)
                &&& map.can_enter(steps[i], target)
            },
{
    let w = seq![start] + steps;
    assert forall|i: int| 0 <= i < steps.len() implies {
        &&& adjacent(if i == 0 { start } else { steps[i - 1] }, #[trigger] steps[i])
        &&& in_bounds(steps[i], map.size as int)
        &&& map.can_enter(steps[i], target)
    } by {
        assert(w[i + 1] == steps[i]);
        assert(w[i] == if i == 0 { start } else { steps[i - 1] });
    }
}

/// A target whose every neighbour on the board is a wall cannot be reached
/// from any other square that is not itself one of those neighbours.
pub proof fn law_walled_target(map: GameMap, start: UVector2, target: UVector2, r: Option<Seq<UVector2>>)
    requires
        map.wf(),
        in_bounds(start, map.size as int),
        in_bounds(target, map.size as int),
        start != target,
        !adjacent(start, target),
        forall|q: UVector2| in_bounds(q, map.size as int) && #[trigger] adjacent(q, target) ==> map.tile_at(q) == Tile::Wall,
        is_search_result(map, start, target, r),
    ensures
        r is None,
{
    assert forall|steps: Seq<UVector2>| !map.is_route(start, target, steps) by {
        if map.is_route(start, target, steps) {
            let w = seq![start] + steps;
            let last = w.len() - 1;
            assert(w[last] == target);
            assert(w[0] == start);
            assert(last >= 1);
            assert(adjacent(w[last - 1], w[last]));
            assert(in_bounds(w[last - 1], map.size as int));
            if last - 1 >= 1 {
                assert(map.can_enter(w[last - 1], target));
            }
        }
    }
    if let Some(steps) = r {
        assert(map.is_route(start, target, steps));
    }
}

/// The search is repeatable: what `gen_path` returns is fixed by the map,
/// the start and the target, so two calls on the same inputs agree.
pub proof fn law_search_repeatable(
    map: GameMap,
    start: UVector2,
    target: UVector2,
    first: Option<Seq<UVector2>>,
    second: Option<Seq<UVector2>>,
)
    requires
        first == search_outcome(map, start, target),
        second == search_outcome(map, start, target),
    ensures
        first == second,
{
}

} // verus!
